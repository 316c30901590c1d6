//! Command-line argument parsing: the command word and its optional
//! path argument.

use vstd::prelude::*;
use vstd::string::*;

verus! {

/// A parsed invocation: the command word and, for the commands that take
/// one, a path argument.
#[derive(Debug)]
pub struct Command {
    pub command: String,
    pub optional_arg: String,
}

/// True of the commands that require a path argument.
pub open spec fn needs_arg(cmd: Seq<char>) -> bool {
    cmd == "add"@ || cmd == "commit"@
}

impl Command {
    /// Parse the argument vector: `args[0]` is the program name, `args[1]`
    /// the command, and `args[2]` the path argument of the commands that
    /// take one.
    pub fn build(args: &Vec<String>) -> (r: Result<Command, &'static str>)
        ensures
            args@.len() < 2 ==> (r matches Err(m) && m@
                == "Enter a command, type ./rit help for more information"@),
            args@.len() >= 2 && needs_arg(args@[1]@) && args@.len() < 3 ==> (r matches Err(m) && m@
                == "Enter a file name"@),
            args@.len() >= 2 && needs_arg(args@[1]@) && args@.len() >= 3 ==> (r matches Ok(c)
                && c.command@ == args@[1]@ && c.optional_arg@ == args@[2]@),
            args@.len() >= 2 && !needs_arg(args@[1]@) ==> (r matches Ok(c) && c.command@
                == args@[1]@ && c.optional_arg@ == Seq::<char>::empty()),
    {
        if args.len() < 2 {
            return Err("Enter a command, type ./rit help for more information");
        }
        let command = args[1].clone();
        let mut optional_arg = String::from_str("");
        proof {
            reveal_strlit("");
            assert(optional_arg@ =~= Seq::<char>::empty());
        }
        let add_word = String::from_str("add");
        let commit_word = String::from_str("commit");
        if command == add_word || command == commit_word {
            if args.len() < 3 {
                return Err("Enter a file name");
            }
            optional_arg = args[2].clone();
        }
        Ok(Command { command, optional_arg })
    }
}

} // verus!
