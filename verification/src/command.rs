//! Parsing a line of user input into a command.

use vstd::prelude::*;

verus! {

/// A parsed line of user input: one of the slash commands, or chat text.
#[derive(Clone, Debug, PartialEq, Eq)]
pub enum Cmd {
    Quit,
    Chat(String),
    RefreshAll,
    RefreshConv,
    RefreshInst,
    RefreshFiles,
}

fn str_eq(a: &str, b: &str) -> (r: bool)
    ensures
        r == (a@ == b@),
{
    let sa = a.to_owned();
    let sb = b.to_owned();
    sa == sb
}

/// What a line of input means: `/q` quits, `/r` and `/ra` refresh
/// everything, `/ri` the instructions, `/rf` the files, `/rc` the
/// conversation; anything else is chat text, passed through unchanged.
pub open spec fn parsed(input: String) -> Cmd {
    if input@ == "/q"@ {
        Cmd::Quit
    } else if input@ == "/r"@ || input@ == "/ra"@ {
        Cmd::RefreshAll
    } else if input@ == "/ri"@ {
        Cmd::RefreshInst
    } else if input@ == "/rf"@ {
        Cmd::RefreshFiles
    } else if input@ == "/rc"@ {
        Cmd::RefreshConv
    } else {
        Cmd::Chat(input)
    }
}

impl Cmd {
    /// Parse one line of input; [`parsed`] says exactly what comes back.
    pub fn from_input(input: String) -> (r: Cmd)
        ensures
            r == parsed(input),
    {
        if str_eq(input.as_str(), "/q") {
            Cmd::Quit
        } else if str_eq(input.as_str(), "/r") || str_eq(input.as_str(), "/ra") {
            Cmd::RefreshAll
        } else if str_eq(input.as_str(), "/ri") {
            Cmd::RefreshInst
        } else if str_eq(input.as_str(), "/rf") {
            Cmd::RefreshFiles
        } else if str_eq(input.as_str(), "/rc") {
            Cmd::RefreshConv
        } else {
            Cmd::Chat(input)
        }
    }
}

} // verus!
