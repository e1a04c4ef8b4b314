//! The pluggable answer verifier attached to each level.
//!
//! A [`Key`] decides whether a submitted answer unlocks a level. Checking is a
//! two-step protocol so that the external-checker variant needs no process
//! handling here: [`Key::check`] either settles the decision on the spot, or
//! hands back the configured command for the caller to run; the caller then
//! folds the command's outcome through [`checker_decision`].

use vstd::prelude::*;

use crate::config::Key;
use crate::config::KeyV;

verus! {

/// The immediate outcome of [`Key::check`]: a settled decision, or an external
/// checker command still to be run with the submitted answer as its sole
/// argument.
pub enum CheckStep {
    Done(Result<(), String>),
    RunChecker(String),
}

impl Key {
    /// Checks a submitted answer as far as it can be checked in-process.
    ///
    /// An open key accepts every answer. An exact key accepts exactly the
    /// configured secret, byte for byte, and rejects everything else with an
    /// empty message (no hint leakage). A checker key defers: the caller runs
    /// the returned command and settles with [`checker_decision`].
    pub fn check(&self, token: &str) -> (r: CheckStep)
        ensures
            self@ == KeyV::Open ==> r == CheckStep::Done(Result::<(), String>::Ok(())),
            self@ matches KeyV::Exact(secret) ==> {
                &&& token@ == secret ==> r == CheckStep::Done(
                    Result::<(), String>::Ok(()),
                )
                &&& token@ != secret ==> (r matches CheckStep::Done(v) && v matches Err(m)
                    && m@ == Seq::<char>::empty())
            },
            self@ matches KeyV::Checker(cmd) ==> (r matches CheckStep::RunChecker(c)
                && c@ == cmd),
    {
        match self {
            Key::Open => CheckStep::Done(Ok(())),
            Key::Exact(secret) => {
                let tok: String = token.to_owned();
                if tok == *secret {
                    CheckStep::Done(Ok(()))
                } else {
                    CheckStep::Done(Err(String::new()))
                }
            },
            Key::Checker(cmd) => CheckStep::RunChecker(cmd.clone()),
        }
    }

    /// Whether the presentation layer should render an answer box for this
    /// key: only an open key needs none.
    pub fn should_show_input(&self) -> (r: bool)
        ensures
            r <==> !(self@ matches KeyV::Open),
    {
        match self {
            Key::Open => false,
            Key::Exact(_) => true,
            Key::Checker(_) => true,
        }
    }
}

/// Maps the outcome of an external checker run to a decision: exit status
/// zero accepts; any other exit rejects, with the checker's standard output
/// as the message shown to the user.
pub fn checker_decision(exit_zero: bool, stdout: String) -> (r: Result<(), String>)
    ensures
        exit_zero ==> r == Result::<(), String>::Ok(()),
        !exit_zero ==> (r matches Err(m) && m == stdout),
{
    if exit_zero {
        Ok(())
    } else {
        Err(stdout)
    }
}

} // verus!
