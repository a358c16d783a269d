//! What one run searches for, and where, and how.

use crate::engine::{
    matching_lines, matching_lines_ignoring_case, search, search_case_insensitive,
};
use vstd::prelude::*;
use vstd::string::*;

verus! {

/// The settings of one run. They are fixed once built.
pub struct Config {
    /// The text to look for.
    pub query: String,
    /// The path of the file to look in.
    pub filename: String,
    /// Whether upper and lower case count as different.
    pub is_case_sensitive: bool,
}

impl Config {
    /// Builds the settings from the arguments of the process, the program's
    /// name first, and from whether the search is to ignore case. The query is the argument after the program's name, the
    /// file's path the one after that; further arguments are ignored. With
    /// fewer than these the result is an error that says so.
    pub fn new(args: &[String], ignore_case: bool) -> (result: Result<Config, &'static str>)
        ensures
            result is Err <==> args@.len() < 3,
            result matches Err(message) ==> message@ == "Not enough arguments."@,
            result matches Ok(config) ==> {
                &&& config.query@ == args@[1]@
                &&& config.filename@ == args@[2]@
                &&& config.is_case_sensitive == !ignore_case
            },
    {
        if args.len() < 3 {
            return Err("Not enough arguments.");
        }
        let query: String = args[1].clone();
        let filename: String = args[2].clone();
        Ok(Config { query, filename, is_case_sensitive: !ignore_case })
    }
}

/// Runs the search that `config` asks for over `contents`, the text of the
/// file that it names: returns the lines to print, in their order.
pub fn run<'a>(config: &Config, contents: &'a str) -> (results: Vec<&'a str>)
    ensures
        config.is_case_sensitive ==> results.deep_view() == matching_lines(
            config.query@,
            contents@,
        ),
        !config.is_case_sensitive ==> results.deep_view() == matching_lines_ignoring_case(
            config.query@,
            contents@,
        ),
{
    if config.is_case_sensitive {
        search(config.query.as_str(), contents)
    } else {
        search_case_insensitive(config.query.as_str(), contents)
    }
}

} // verus!
