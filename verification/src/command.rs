use vstd::prelude::*;

use crate::text::{compare_str, Order};

verus! {

broadcast use vstd::string::group_string_axioms;

/// What the command line asks for.
#[derive(Debug)]
pub enum Command {
    /// No command was given.
    NoArguments,
    /// `new_project`, with the project's name if one was given.
    NewProject(Option<String>),
    /// `new_entry`, with the entry's name if one was given.
    NewEntry(Option<String>),
    /// `print_entries_by_tag`.
    PrintEntriesByTag,
    /// `generate`.
    Generate,
    /// Any other command.
    Unrecognized(String),
}

/// The name argument, if there is one.
fn name_argument(args: &Vec<String>) -> (name: Option<String>)
    ensures
        name is Some <==> args@.len() >= 3,
        name matches Some(n) ==> n@ == args@[2]@,
{
    if args.len() >= 3 {
        Some(args[2].clone())
    } else {
        None
    }
}

/// Reads the command from the program's arguments (`args[0]` is the
/// program itself).
pub fn parse_command(args: &Vec<String>) -> (cmd: Command)
    ensures
        args@.len() <= 1 ==> cmd is NoArguments,
        args@.len() > 1 && args@[1]@ == "new_project"@ ==> (cmd matches Command::NewProject(n)
            && (n is Some <==> args@.len() >= 3) && (n matches Some(x) ==> x@ == args@[2]@)),
        args@.len() > 1 && args@[1]@ == "new_entry"@ ==> (cmd matches Command::NewEntry(n)
            && (n is Some <==> args@.len() >= 3) && (n matches Some(x) ==> x@ == args@[2]@)),
        args@.len() > 1 && args@[1]@ == "print_entries_by_tag"@ ==> cmd is PrintEntriesByTag,
        args@.len() > 1 && args@[1]@ == "generate"@ ==> cmd is Generate,
        args@.len() > 1 && args@[1]@ != "new_project"@ && args@[1]@ != "new_entry"@ && args@[1]@
            != "print_entries_by_tag"@ && args@[1]@ != "generate"@ ==> (cmd matches Command::Unrecognized(c)
            && c@ == args@[1]@),
{
    if args.len() <= 1 {
        return Command::NoArguments;
    }
    let command = args[1].as_str();
    proof {
        reveal_strlit("new_project");
        reveal_strlit("new_entry");
        reveal_strlit("print_entries_by_tag");
        reveal_strlit("generate");
        assert("new_project"@.len() != "new_entry"@.len());
        assert("new_project"@.len() != "print_entries_by_tag"@.len());
        assert("new_project"@.len() != "generate"@.len());
        assert("new_entry"@.len() != "print_entries_by_tag"@.len());
        assert("new_entry"@[0] != "generate"@[0]);
        assert("print_entries_by_tag"@.len() != "generate"@.len());
    }
    if compare_str(command, "new_project") == Order::Equal {
        Command::NewProject(name_argument(args))
    } else if compare_str(command, "new_entry") == Order::Equal {
        Command::NewEntry(name_argument(args))
    } else if compare_str(command, "print_entries_by_tag") == Order::Equal {
        Command::PrintEntriesByTag
    } else if compare_str(command, "generate") == Order::Equal {
        Command::Generate
    } else {
        Command::Unrecognized(args[1].clone())
    }
}

} // verus!
