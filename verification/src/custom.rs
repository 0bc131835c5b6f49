//! The container configuration a manifest file describes. Reading the
//! file and decoding it live outside the library; this module holds the
//! decoded shape and how its pieces become launch parameters.

use vstd::prelude::*;

use crate::text::{join_with, join_strings, join_with_sep, join_strings_sep};

verus! {

/// A manifest command: one line, or a list run in sequence.
pub enum CommandValue {
    Single(String),
    List(Vec<String>),
}

/// A decoded container manifest.
pub struct ContainerConfig {
    pub system: String,
    pub cmd: CommandValue,
    pub ports: Option<Vec<String>>,
    pub isolated: Option<bool>,
    pub debug: Option<bool>,
}

/// The separator that chains listed commands into one shell line.
pub open spec fn chain_sep() -> Seq<char> {
    seq![' ', '&', '&', ' ']
}

/// The argv a manifest command becomes: a single line stays itself; a
/// list is chained into one line, every command run in order.
pub fn command_vec(cmd: &CommandValue) -> (r: Vec<String>)
    ensures
        r@.len() == 1,
        match cmd {
            CommandValue::Single(s) => r.deep_view() == seq![s@],
            CommandValue::List(l) => r.deep_view() == seq![join_with_sep(l.deep_view(), chain_sep())],
        },
{
    let mut r: Vec<String> = Vec::new();
    match cmd {
        CommandValue::Single(s) => {
            r.push(s.clone());
            proof {
                assert(r.deep_view() =~~= seq![s@]);
            }
        },
        CommandValue::List(l) => {
            proof {
                reveal_strlit(" && ");
                assert(" && "@ =~= chain_sep());
            }
            let joined = join_strings_sep(l, " && ");
            r.push(joined);
            proof {
                assert(r.deep_view() =~~= seq![join_with_sep(l.deep_view(), chain_sep())]);
            }
        },
    }
    r
}

/// The ports field forwarded to the control plane: the listed port
/// specs joined with commas; nothing listed is the empty field.
pub fn ports_string(ports: &Option<Vec<String>>) -> (r: String)
    ensures
        match ports {
            Some(l) => r@ == join_with(l.deep_view(), ','),
            None => r@.len() == 0,
        },
{
    match ports {
        Some(l) => join_strings(l, ','),
        None => String::new(),
    }
}

} // verus!
