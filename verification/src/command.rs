//! Parsing of interactive commands: an action word followed by its key and,
//! for `set`, its value.

use vstd::prelude::*;

verus! {

/// What the user asked for.
#[derive(Clone, Copy, Debug, PartialEq, Eq, Structural)]
pub enum Action {
    Put,
    Get,
    Del,
    Load,
    Exit,
}

/// The action a command word names, if any.
pub open spec fn action_of(s: Seq<char>) -> Option<Action> {
    if s == "set"@ {
        Some(Action::Put)
    } else if s == "get"@ {
        Some(Action::Get)
    } else if s == "del"@ {
        Some(Action::Del)
    } else if s == "exit"@ {
        Some(Action::Exit)
    } else if s == "load"@ {
        Some(Action::Load)
    } else {
        None
    }
}

impl Action {
    /// Parses a command word.
    pub fn from_str(s: &str) -> (r: Result<Action, ()>)
        ensures
            match r {
                Ok(a) => action_of(s@) == Some(a),
                Err(()) => action_of(s@) is None,
            },
    {
        let owned = s.to_owned();
        if owned == "set".to_owned() {
            Ok(Action::Put)
        } else if owned == "get".to_owned() {
            Ok(Action::Get)
        } else if owned == "del".to_owned() {
            Ok(Action::Del)
        } else if owned == "exit".to_owned() {
            Ok(Action::Exit)
        } else if owned == "load".to_owned() {
            Ok(Action::Load)
        } else {
            Err(())
        }
    }
}

/// A parsed command: the action with its key and value where the action
/// takes them.
#[derive(Debug, PartialEq, Eq)]
pub struct Command {
    pub action: Action,
    pub key: Option<String>,
    pub val: Option<String>,
}

/// Whether the words of one input line form a command: a known action word,
/// then a key unless the action is `exit`, then a value if the action is
/// `set`.
pub open spec fn buildable(args: Seq<Seq<char>>) -> bool {
    &&& args.len() >= 1
    &&& action_of(args[0]) is Some
    &&& (action_of(args[0]) != Some(Action::Exit) ==> args.len() >= 2)
    &&& (action_of(args[0]) == Some(Action::Put) ==> args.len() >= 3)
}

impl Command {
    /// Builds a command from the words of one input line.
    pub fn build(args: &Vec<String>) -> (r: Result<Command, &'static str>)
        ensures
            match r {
                Ok(c) => {
                    &&& buildable(args@.map_values(|a: String| a@))
                    &&& Some(c.action) == action_of(args@[0]@)
                    &&& (c.action == Action::Exit <==> c.key is None)
                    &&& (c.action != Action::Exit ==> (c.key matches Some(k) && k@ == args@[1]@))
                    &&& (c.action == Action::Put <==> c.val is Some)
                    &&& (c.action == Action::Put ==> (c.val matches Some(v) && v@ == args@[2]@))
                },
                Err(m) => {
                    &&& !buildable(args@.map_values(|a: String| a@))
                    &&& (args@.len() == 0 ==> m@ == "Didn't get a command"@)
                    &&& (args@.len() >= 1 ==> match action_of(args@[0]@) {
                        None => m@ == "Invalid action"@,
                        Some(a) => if a != Action::Exit && args@.len() < 2 {
                            m@ == "Didn't get a key"@
                        } else {
                            a == Action::Put && args@.len() < 3 && m@
                                == "Didn't get a value for 'set' command"@
                        },
                    })
                },
            },
    {
        let ghost words = args@.map_values(|a: String| a@);
        proof {
            assert(forall|i: int| 0 <= i < args@.len() ==> words[i] == args@[i]@);
        }
        if args.len() == 0 {
            return Err("Didn't get a command");
        }
        let action = match Action::from_str(args[0].as_str()) {
            Ok(a) => a,
            Err(()) => {
                return Err("Invalid action");
            },
        };
        let key = match action {
            Action::Exit => None,
            _ => {
                if args.len() < 2 {
                    return Err("Didn't get a key");
                }
                Some(args[1].clone())
            },
        };
        let val = match action {
            Action::Put => {
                if args.len() < 3 {
                    return Err("Didn't get a value for 'set' command");
                }
                Some(args[2].clone())
            },
            _ => None,
        };
        Ok(Command { action, key, val })
    }
}

} // verus!
