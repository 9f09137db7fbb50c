//! The variables of the environment, as a table that the caller fills.

use crate::error::{ErrorV, LookupCause, StageError};
use vstd::prelude::*;
use vstd::string::*;

verus! {

/// The text of an optional string.
pub open spec fn opt_text(v: Option<String>) -> Option<Seq<char>> {
    match v {
        Some(s) => Some(s@),
        None => None,
    }
}

/// The table that a list of bindings stands for: a later binding of a name
/// replaces an earlier one.
pub open spec fn bindings(vars: Seq<(String, Option<String>)>) -> Map<Seq<char>, Option<Seq<char>>>
    decreases vars.len(),
{
    if vars.len() == 0 {
        Map::empty()
    } else {
        bindings(vars.drop_last()).insert(vars.last().0@, opt_text(vars.last().1))
    }
}

/// What reading `name` from the table `env` gives: the text it is bound to,
/// or the reason why there is none.
pub open spec fn env_value(env: Map<Seq<char>, Option<Seq<char>>>, name: Seq<char>) -> Result<
    Seq<char>,
    ErrorV,
> {
    if !env.contains_key(name) {
        Err(ErrorV::LookupMissing { name, reason: LookupCause::NotPresent })
    } else {
        match env[name] {
            Some(text) => Ok(text),
            None => Err(ErrorV::LookupMissing { name, reason: LookupCause::NotText }),
        }
    }
}

/// The value of a text or an error.
pub open spec fn text_outcome_view(r: Result<String, StageError>) -> Result<Seq<char>, ErrorV> {
    match r {
        Ok(s) => Ok(s@),
        Err(e) => Err(e@),
    }
}

/// The variables that a build step was started with. A variable is bound to
/// its text, or to nothing where what it holds is not valid text.
#[derive(Debug)]
pub struct Env {
    vars: Vec<(String, Option<String>)>,
}

impl View for Env {
    type V = Map<Seq<char>, Option<Seq<char>>>;

    closed spec fn view(&self) -> Map<Seq<char>, Option<Seq<char>>> {
        bindings(self.vars@)
    }
}

impl Env {
    /// The environment without variables.
    pub fn new() -> (env: Env)
        ensures
            env@ == Map::<Seq<char>, Option<Seq<char>>>::empty(),
    {
        Env { vars: Vec::new() }
    }

    /// Binds `name` to `value`.
    pub fn set(&mut self, name: &str, value: &str)
        ensures
            final(self)@ == old(self)@.insert(name@, Some(value@)),
    {
        let ghost before = self.vars@;
        self.vars.push((name.to_owned(), Some(value.to_owned())));
        assert(self.vars@.drop_last() =~= before);
    }

    /// Binds `name` to something that is not valid text.
    pub fn set_unreadable(&mut self, name: &str)
        ensures
            final(self)@ == old(self)@.insert(name@, None),
    {
        let ghost before = self.vars@;
        self.vars.push((name.to_owned(), None));
        assert(self.vars@.drop_last() =~= before);
    }

    /// Reads the variable `name`.
    pub fn lookup(&self, name: &str) -> (r: Result<String, StageError>)
        ensures
            text_outcome_view(r) == env_value(self@, name@),
    {
        let wanted = name.to_owned();
        let mut i: usize = self.vars.len();
        assert(self.vars@.take(i as int) =~= self.vars@);
        while i > 0
            invariant
                i <= self.vars.len(),
                wanted@ == name@,
                env_value(self@, name@) == env_value(bindings(self.vars@.take(i as int)), name@),
            decreases i,
        {
            let ghost upto = self.vars@.take(i as int);
            assert(upto.drop_last() =~= self.vars@.take(i - 1));
            assert(upto.last() == self.vars@[i - 1]);
            i -= 1;
            if self.vars[i].0 == wanted {
                return match &self.vars[i].1 {
                    Some(text) => Ok(text.clone()),
                    None => Err(
                        StageError::LookupMissing {
                            name: name.to_owned(),
                            reason: LookupCause::NotText,
                        },
                    ),
                };
            }
        }
        Err(StageError::LookupMissing { name: name.to_owned(), reason: LookupCause::NotPresent })
    }
}

/// The upper-case form of a text, as the standard library computes it.
pub uninterp spec fn uppercase_of(s: Seq<char>) -> Seq<char>;

/// Calls `str::to_uppercase`, which maps each character by the Unicode rules
/// for upper case. The contract only names the result.
#[verifier::external_body]
fn to_upper(s: &str) -> (r: String)
    ensures
        r@ == uppercase_of(s@),
{
    s.to_uppercase()
}

/// The name of the variable under which a dependency publishes a key, given
/// both in upper case.
pub open spec fn dep_var_name(upper_dep: Seq<char>, upper_key: Seq<char>) -> Seq<char> {
    "DEP_"@ + upper_dep + "_"@ + upper_key
}

/// The name of the variable under which the dependency `upper_dep` publishes
/// `upper_key`, both given in upper case.
pub fn dep_var(upper_dep: &str, upper_key: &str) -> (name: String)
    ensures
        name@ == dep_var_name(upper_dep@, upper_key@),
{
    let mut name = String::new();
    name.append("DEP_");
    name.append(upper_dep);
    name.append("_");
    name.append(upper_key);
    assert(name@ =~= dep_var_name(upper_dep@, upper_key@));
    name
}

/// The value that the dependency `dep` publishes under `key`: the text of
/// the variable whose name is made of both in upper case.
pub fn dep_value(dep: &str, key: &str, env: &Env) -> (r: Result<String, StageError>)
    ensures
        text_outcome_view(r) == env_value(
            env@,
            dep_var_name(uppercase_of(dep@), uppercase_of(key@)),
        ),
{
    let upper_dep = to_upper(dep);
    let upper_key = to_upper(key);
    let name = dep_var(upper_dep.as_str(), upper_key.as_str());
    env.lookup(name.as_str())
}

} // verus!
