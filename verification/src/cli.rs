//! The command-line surface's decision core: which action a raw argument
//! list denotes, and the usage text.

use vstd::prelude::*;

use crate::error::Args;

verus! {

/// What an invocation asks for.
#[derive(Debug)]
pub enum Action {
    /// Rank the stored paths against a query.
    Query(String),
    /// Register an access to a path.
    Access(String),
    /// Print the usage text.
    Help,
}

/// Decides the action from the arguments after the program name: the
/// first argument picks the action, `q` and `a` consume one operand.
pub fn parse_args(args: Vec<String>) -> (r: Result<Action, Args>)
    ensures
        (r matches Err(Args::NoAction)) <==> args@.len() == 0,
        args@.len() >= 2 && args@[0]@ == "q"@ ==> (r matches Ok(Action::Query(q)) && q@
            == args@[1]@),
        args@.len() >= 2 && args@[0]@ == "a"@ ==> (r matches Ok(Action::Access(p)) && p@
            == args@[1]@),
        args@.len() == 1 && (args@[0]@ == "q"@ || args@[0]@ == "a"@) ==> (r matches Err(
            Args::Missing,
        )),
        args@.len() >= 1 && (args@[0]@ == "h"@ || args@[0]@ == "-h"@) ==> (r matches Ok(
            Action::Help,
        )),
        args@.len() >= 1 && args@[0]@ != "q"@ && args@[0]@ != "a"@ && args@[0]@ != "h"@
            && args@[0]@ != "-h"@ ==> (r matches Err(Args::UnknownAction(u)) && u@ == args@[0]@),
{
    proof {
        reveal_strlit("q");
        reveal_strlit("a");
        reveal_strlit("h");
        reveal_strlit("-h");
        assert("q"@[0] == 'q' && "a"@[0] == 'a' && "h"@[0] == 'h' && "-h"@[0] == '-');
        assert("q"@ != "a"@ && "q"@ != "h"@ && "q"@ != "-h"@);
        assert("a"@ != "h"@ && "a"@ != "-h"@);
        assert("h"@ != "-h"@);
    }
    let mut rest = args;
    if rest.len() == 0 {
        return Err(Args::NoAction);
    }
    let action = rest.remove(0);
    if action == "q".to_owned() {
        if rest.len() == 0 {
            return Err(Args::Missing);
        }
        let operand = rest.remove(0);
        return Ok(Action::Query(operand));
    }
    if action == "a".to_owned() {
        if rest.len() == 0 {
            return Err(Args::Missing);
        }
        let operand = rest.remove(0);
        return Ok(Action::Access(operand));
    }
    if action == "h".to_owned() || action == "-h".to_owned() {
        return Ok(Action::Help);
    }
    Err(Args::UnknownAction(action))
}

/// The usage text, word for word.
pub open spec fn usage_text() -> Seq<char> {
    "Usage: frecency [ACTION] [args...]\n\nA directory classifier\n\nCommands:\n  q <query>  Query the matching directory entries\n  a <path>   Registers an access to the given path\n  h          Show this help message\n\nExamples:\n  frecency q co/ru/z  Queries frecency for the matches of `co/ru/z` and their scores\n\nOutput:\n  If there's a single match, just the match is returned:\n    $ frecency q co/ru/z\n    /home/user/code/rust/frecency\n\n  If there are multiple matches, each will take a line preceded by their score:\n    $ frecency q co/ru/z\n    100 /home/user/code/rust/frecency/\n    60 /homu/user/records/carl/utils/lazy"@
}

/// The usage text that `h` prints and that argument errors append.
pub fn help() -> (r: &'static str)
    ensures
        r@ == usage_text(),
{
    "Usage: frecency [ACTION] [args...]\n\nA directory classifier\n\nCommands:\n  q <query>  Query the matching directory entries\n  a <path>   Registers an access to the given path\n  h          Show this help message\n\nExamples:\n  frecency q co/ru/z  Queries frecency for the matches of `co/ru/z` and their scores\n\nOutput:\n  If there's a single match, just the match is returned:\n    $ frecency q co/ru/z\n    /home/user/code/rust/frecency\n\n  If there are multiple matches, each will take a line preceded by their score:\n    $ frecency q co/ru/z\n    100 /home/user/code/rust/frecency/\n    60 /homu/user/records/carl/utils/lazy"
}

} // verus!
