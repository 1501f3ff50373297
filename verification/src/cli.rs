//! The command line: one argument, the directory to profile.

use vstd::prelude::*;
use vstd::string::*;

verus! {

/// What the argument of the command line names.
#[derive(Debug, PartialEq, Eq)]
pub enum PathArgument {
    /// The home directory of the user, written `~`.
    Home,
    /// The current working directory, written `.`.
    CurrentDir,
    /// The path as it was given.
    Given(String),
}

/// The mathematical view of a path argument.
pub enum PathArgumentView {
    Home,
    CurrentDir,
    Given(Seq<char>),
}

impl View for PathArgument {
    type V = PathArgumentView;

    open spec fn view(&self) -> PathArgumentView {
        match self {
            PathArgument::Home => PathArgumentView::Home,
            PathArgument::CurrentDir => PathArgumentView::CurrentDir,
            PathArgument::Given(path) => PathArgumentView::Given(path@),
        }
    }
}

/// What the arguments after the name of the program ask for: with exactly
/// one argument, the directory that it names; with none or with more, the
/// usage is wrong.
pub open spec fn path_argument_of(args: Seq<Seq<char>>) -> Option<PathArgumentView> {
    if args.len() != 1 {
        None
    } else if args[0] == seq!['~'] {
        Some(PathArgumentView::Home)
    } else if args[0] == seq!['.'] {
        Some(PathArgumentView::CurrentDir)
    } else {
        Some(PathArgumentView::Given(args[0]))
    }
}

/// The view of an optional path argument.
pub open spec fn opt_argument(o: Option<PathArgument>) -> Option<PathArgumentView> {
    match o {
        Some(a) => Some(a@),
        None => None,
    }
}

/// What the arguments after the name of the program ask for, as
/// `path_argument_of` defines it.
pub fn path_argument(args: &Vec<String>) -> (r: Option<PathArgument>)
    ensures
        opt_argument(r) == path_argument_of(crate::types::strings_of(args@)),
{
    if args.len() != 1 {
        return None;
    }
    proof {
        reveal_strlit("~");
        reveal_strlit(".");
        assert("~"@ =~= seq!['~']);
        assert("."@ =~= seq!['.']);
    }
    let home = String::from_str("~");
    let current = String::from_str(".");
    if args[0] == home {
        Some(PathArgument::Home)
    } else if args[0] == current {
        Some(PathArgument::CurrentDir)
    } else {
        Some(PathArgument::Given(args[0].clone()))
    }
}

} // verus!
