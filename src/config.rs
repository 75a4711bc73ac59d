//! What one search is asked to do, taken from the command-line arguments.

use vstd::prelude::*;

use crate::search::{
    insensitive_matches, search_case_insensitive, search_case_sensitive, sensitive_matches,
};

verus! {

/// The message given when the arguments name no query or no file.
pub const NOT_ENOUGH_ARGUMENTS: &'static str = "not enough arguments given.";

/// One search: the query, the file to look in, and whether letter case is
/// ignored.
pub struct Config {
    pub text: String,
    pub file_path: String,
    pub ignore_case: bool,
}

impl Config {
    /// Takes the query and the file path from `args`, whose first entry is the
    /// program's own name; `ignore_case` is the resolved case policy.
    pub fn build(args: &[String], ignore_case: bool) -> (r: Result<Config, &'static str>)
        ensures
            r is Err <==> args@.len() < 3,
            r matches Err(e) ==> e@ == NOT_ENOUGH_ARGUMENTS@,
            r matches Ok(c) ==> {
                &&& c.text@ == args@[1]@
                &&& c.file_path@ == args@[2]@
                &&& c.ignore_case == ignore_case
            },
    {
        if args.len() < 3 {
            return Err(NOT_ENOUGH_ARGUMENTS);
        }
        let text = args[1].clone();
        let file_path = args[2].clone();
        Ok(Config { text, file_path, ignore_case })
    }
}

/// The lines of `contents` that `config` asks for: those that hold its query,
/// with or without regard to case as it says, in their order.
pub fn search<'a>(config: &Config, contents: &'a str) -> (r: Vec<&'a str>)
    ensures
        r@.map_values(|l: &str| l@) == if config.ignore_case {
            insensitive_matches(config.text@, contents@)
        } else {
            sensitive_matches(config.text@, contents@)
        },
{
    if config.ignore_case {
        search_case_insensitive(config.text.as_str(), contents)
    } else {
        search_case_sensitive(config.text.as_str(), contents)
    }
}

} // verus!
