//! Subcommand vocabulary of the command-line tool built on the initializer.

use vstd::prelude::*;
use vstd::string::*;
use crate::paths::str_eq;

verus! {

/// A recognized subcommand.
#[derive(Clone, Copy, PartialEq, Eq, Debug)]
pub enum SubCommand {
    Init,
}

impl SubCommand {
    /// Parse a subcommand word. An unknown word yields exactly the
    /// diagnostic the tool prints for it.
    pub fn parse(s: &str) -> (r: Result<SubCommand, String>)
        ensures
            s@ == "init"@ ==> r == Result::<SubCommand, String>::Ok(SubCommand::Init),
            s@ != "init"@ ==> (r matches Err(m) && m@ == "rgit: '"@ + s@
                + "' is not a rgit command."@),
    {
        if str_eq(s, "init") {
            Ok(SubCommand::Init)
        } else {
            let mut msg = String::from_str("rgit: '");
            msg.append(s);
            msg.append("' is not a rgit command.");
            Err(msg)
        }
    }

    /// The word this subcommand is written as.
    pub fn name(&self) -> (r: String)
        ensures
            r@ == "init"@,
    {
        match self {
            SubCommand::Init => String::from_str("init"),
        }
    }
}

} // verus!
