use stagedir::env::dep_var;
use stagedir::{
    dep_value, target_dir, Directive, Entry, Env, LookupCause, OtherDir, Reply, Request,
    StageError, StagePath,
};

fn path(text: &str) -> StagePath {
    StagePath::parse(text)
}

fn missing(name: &str) -> StageError {
    StageError::LookupMissing { name: name.to_string(), reason: LookupCause::NotPresent }
}

fn build_env() -> Env {
    let mut env = Env::new();
    env.set("OUT_DIR", "/work/target/debug/build/pkg-1f2e/out");
    env.set("CARGO_MANIFEST_LINKS", "pkg");
    env.set("DEP_ALPHA_INCLUDE", "/deps/alpha/include");
    env.set("DEP_BETA_INCLUDE", "/deps/beta/include");
    env
}

fn file(name: &str) -> Reply {
    Reply::Entries { entries: vec![Entry::Found { name: name.to_string(), is_dir: false }] }
}

#[test]
fn env_reads_what_was_set() {
    let mut env = Env::new();
    assert_eq!(env.lookup("A"), Err(missing("A")));
    env.set("A", "1");
    env.set("B", "2");
    assert_eq!(env.lookup("A"), Ok("1".to_string()));
    assert_eq!(env.lookup("B"), Ok("2".to_string()));
    assert_eq!(env.lookup("a"), Err(missing("a")));
}

#[test]
fn env_keeps_the_last_binding_of_a_name() {
    let mut env = Env::new();
    env.set("A", "1");
    env.set("A", "2");
    assert_eq!(env.lookup("A"), Ok("2".to_string()));
    env.set_unreadable("A");
    assert_eq!(
        env.lookup("A"),
        Err(StageError::LookupMissing { name: "A".to_string(), reason: LookupCause::NotText })
    );
    env.set("A", "");
    assert_eq!(env.lookup("A"), Ok(String::new()));
}

#[test]
fn lookup_errors_have_the_messages_of_the_environment() {
    assert_eq!(missing("A").message(), "environment variable not found");
    assert_eq!(
        StageError::LookupMissing { name: "A".to_string(), reason: LookupCause::NotText }.message(),
        "environment variable was not valid unicode"
    );
}

#[test]
fn dep_var_joins_the_parts_with_underscores() {
    assert_eq!(dep_var("ALPHA", "INCLUDE"), "DEP_ALPHA_INCLUDE");
    assert_eq!(dep_var("", ""), "DEP__");
    assert_eq!(dep_var("a", "b"), "DEP_a_b");
}

#[test]
fn dep_value_reads_the_variable_in_upper_case() {
    let env = build_env();
    assert_eq!(dep_value("alpha", "include", &env), Ok("/deps/alpha/include".to_string()));
    assert_eq!(dep_value("Beta", "Include", &env), Ok("/deps/beta/include".to_string()));
    assert_eq!(dep_value("ALPHA", "INCLUDE", &env), Ok("/deps/alpha/include".to_string()));
}

#[test]
fn dep_value_of_a_name_without_variable_is_a_missing_lookup() {
    let env = build_env();
    assert_eq!(dep_value("gamma", "include", &env), Err(missing("DEP_GAMMA_INCLUDE")));
    assert_eq!(dep_value("alpha", "lib", &env), Err(missing("DEP_ALPHA_LIB")));
    let mut lower = Env::new();
    lower.set("DEP_alpha_include", "/x");
    assert_eq!(dep_value("alpha", "include", &lower), Err(missing("DEP_ALPHA_INCLUDE")));
}

#[test]
fn dep_value_of_a_variable_that_is_not_text_is_a_missing_lookup() {
    let mut env = build_env();
    env.set_unreadable("DEP_ALPHA_INCLUDE");
    assert_eq!(
        dep_value("alpha", "include", &env),
        Err(StageError::LookupMissing {
            name: "DEP_ALPHA_INCLUDE".to_string(),
            reason: LookupCause::NotText
        })
    );
}

#[test]
fn new_computes_the_root_and_publishes_it() {
    let (dir, notice) = OtherDir::new("include", &build_env()).unwrap();
    assert_eq!(dir.key(), "include");
    assert_eq!(dir.root(), &path("/work/target/debug/build/pkg-1f2e/out/pkg"));
    assert_eq!(
        notice,
        Directive::Publish {
            key: "include".to_string(),
            value: path("/work/target/debug/build/pkg-1f2e/out/pkg"),
        }
    );
    assert_eq!(notice.line(), "cargo:include=/work/target/debug/build/pkg-1f2e/out/pkg");
}

#[test]
fn new_fails_without_the_output_directory() {
    let mut env = Env::new();
    env.set("CARGO_MANIFEST_LINKS", "pkg");
    assert_eq!(OtherDir::new("include", &env).unwrap_err(), missing("OUT_DIR"));
    assert_eq!(OtherDir::new("include", &Env::new()).unwrap_err(), missing("OUT_DIR"));
}

#[test]
fn new_fails_without_the_link_name() {
    let mut env = Env::new();
    env.set("OUT_DIR", "/out");
    assert_eq!(OtherDir::new("include", &env).unwrap_err(), missing("CARGO_MANIFEST_LINKS"));
}

#[test]
fn add_dir_copies_into_the_root() {
    let (dir, _) = OtherDir::new("include", &build_env()).unwrap();
    let session = dir.add_dir(&path("vendor/include"));
    assert_eq!(
        session.request(),
        Request::CreateDirAll { path: path("/work/target/debug/build/pkg-1f2e/out/pkg") }
    );
    let session = session.advance(Reply::Done);
    assert_eq!(session.request(), Request::ReadDir { path: path("vendor/include") });
    let session = session.advance(file("a.h")).advance(Reply::Done);
    assert_eq!(
        session.request(),
        Request::CopyFile {
            from: path("vendor/include/a.h"),
            to: path("/work/target/debug/build/pkg-1f2e/out/pkg/a.h"),
        }
    );
}

#[test]
fn add_dep_copies_below_the_name_of_the_dependency() {
    let env = build_env();
    let (dir, _) = OtherDir::new("include", &env).unwrap();
    let session = dir.add_dep("alpha", &env).unwrap();
    assert_eq!(
        session.request(),
        Request::CreateDirAll { path: path("/work/target/debug/build/pkg-1f2e/out/pkg/alpha") }
    );
    let session = session.advance(Reply::Done);
    assert_eq!(session.request(), Request::ReadDir { path: path("/deps/alpha/include") });
    let session = session.advance(file("same.h")).advance(Reply::Done);
    assert_eq!(
        session.request(),
        Request::CopyFile {
            from: path("/deps/alpha/include/same.h"),
            to: path("/work/target/debug/build/pkg-1f2e/out/pkg/alpha/same.h"),
        }
    );
}

#[test]
fn add_dep_keeps_two_dependencies_apart() {
    let env = build_env();
    let (dir, _) = OtherDir::new("include", &env).unwrap();
    let copy_of = |dep: &str| {
        dir.add_dep(dep, &env).unwrap().advance(Reply::Done).advance(file("same.h")).advance(Reply::Done).request()
    };
    let (a, b) = (copy_of("alpha"), copy_of("beta"));
    match (a, b) {
        (Request::CopyFile { to: to_a, .. }, Request::CopyFile { to: to_b, .. }) => {
            assert_ne!(to_a, to_b);
            assert_eq!(to_a.render(), "/work/target/debug/build/pkg-1f2e/out/pkg/alpha/same.h");
            assert_eq!(to_b.render(), "/work/target/debug/build/pkg-1f2e/out/pkg/beta/same.h");
        }
        other => panic!("{:?}", other),
    }
}

#[test]
fn merge_dep_copies_into_the_root_itself() {
    let env = build_env();
    let (dir, _) = OtherDir::new("include", &env).unwrap();
    let copy_of = |dep: &str| {
        dir.merge_dep(dep, &env).unwrap().advance(Reply::Done).advance(file("same.h")).advance(Reply::Done).request()
    };
    assert_eq!(
        copy_of("alpha"),
        Request::CopyFile {
            from: path("/deps/alpha/include/same.h"),
            to: path("/work/target/debug/build/pkg-1f2e/out/pkg/same.h"),
        }
    );
    assert_eq!(
        copy_of("beta"),
        Request::CopyFile {
            from: path("/deps/beta/include/same.h"),
            to: path("/work/target/debug/build/pkg-1f2e/out/pkg/same.h"),
        }
    );
}

#[test]
fn a_dependency_without_variable_starts_no_session() {
    let env = build_env();
    let (dir, _) = OtherDir::new("include", &env).unwrap();
    assert_eq!(dir.add_dep("gamma", &env).unwrap_err(), missing("DEP_GAMMA_INCLUDE"));
    assert_eq!(dir.merge_dep("gamma", &env).unwrap_err(), missing("DEP_GAMMA_INCLUDE"));
}

#[test]
fn the_key_selects_the_variable_of_the_dependency() {
    let mut env = build_env();
    env.set("DEP_ALPHA_LIB", "/deps/alpha/lib");
    let (dir, _) = OtherDir::new("lib", &env).unwrap();
    let session = dir.merge_dep("alpha", &env).unwrap().advance(Reply::Done);
    assert_eq!(session.request(), Request::ReadDir { path: path("/deps/alpha/lib") });
    assert_eq!(dir.add_dep("beta", &env).unwrap_err(), missing("DEP_BETA_LIB"));
}

fn cargo_env(target: &str, host: &str) -> Env {
    let mut env = Env::new();
    env.set("CARGO_MANIFEST_DIR", "/work/pkg");
    env.set("TARGET", target);
    env.set("HOST", host);
    env.set("PROFILE", "release");
    env
}

#[test]
fn target_dir_for_the_host_has_no_triple() {
    let env = cargo_env("x86_64-unknown-linux-gnu", "x86_64-unknown-linux-gnu");
    assert_eq!(target_dir(&env), Ok(path("/work/pkg/target/release")));
}

#[test]
fn target_dir_for_another_target_has_its_triple() {
    let env = cargo_env("aarch64-apple-darwin", "x86_64-unknown-linux-gnu");
    assert_eq!(target_dir(&env), Ok(path("/work/pkg/target/aarch64-apple-darwin/release")));
}

#[test]
fn target_dir_prefers_the_directory_that_is_set() {
    let mut env = cargo_env("t", "h");
    env.set("CARGO_TARGET_DIR", "/fast/target");
    assert_eq!(target_dir(&env), Ok(path("/fast/target/t/release")));
    let mut only = Env::new();
    only.set("CARGO_TARGET_DIR", "build");
    only.set("TARGET", "h");
    only.set("HOST", "h");
    only.set("PROFILE", "debug");
    assert_eq!(target_dir(&only), Ok(path("build/debug")));
}

#[test]
fn target_dir_falls_back_when_the_directory_is_not_text() {
    let mut env = cargo_env("h", "h");
    env.set_unreadable("CARGO_TARGET_DIR");
    assert_eq!(target_dir(&env), Ok(path("/work/pkg/target/release")));
}

#[test]
fn target_dir_names_the_first_variable_that_is_missing() {
    assert_eq!(target_dir(&Env::new()), Err(missing("CARGO_MANIFEST_DIR")));
    let mut env = Env::new();
    env.set("CARGO_MANIFEST_DIR", "/work/pkg");
    assert_eq!(target_dir(&env), Err(missing("TARGET")));
    env.set("TARGET", "t");
    assert_eq!(target_dir(&env), Err(missing("HOST")));
    env.set("HOST", "h");
    assert_eq!(target_dir(&env), Err(missing("PROFILE")));
    env.set("PROFILE", "debug");
    assert_eq!(target_dir(&env), Ok(path("/work/pkg/target/t/debug")));
}

#[test]
fn dep_value_raises_letters_by_the_rules_of_unicode() {
    let mut env = Env::new();
    env.set("DEP_STRASSE_\u{c9}T\u{c9}", "/deps/x");
    assert_eq!(dep_value("stra\u{df}e", "\u{e9}t\u{e9}", &env), Ok("/deps/x".to_string()));
    assert_eq!(
        dep_value("stra\u{df}e", "x", &env),
        Err(missing("DEP_STRASSE_X"))
    );
}
