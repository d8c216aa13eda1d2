//! The configuration of one search: a query and the path of the file to
//! search, taken from the command-line arguments.

use vstd::prelude::*;

verus! {

/// The message of the error for a command line with too few arguments.
pub const NOT_ENOUGH_ARGUMENTS: &'static str = "Not enough arguments!";

/// A validated configuration: the query to look for and the file to search.
pub struct Config {
    pub query: String,
    pub file_path: String,
}

/// The characters of each argument.
pub open spec fn arg_views(args: Seq<String>) -> Seq<Seq<char>> {
    args.map_values(|a: String| a@)
}

/// The query and the file path that a command line gives: its second and
/// third arguments, when it has at least three (the first names the program,
/// and any after the third are ignored).
pub open spec fn parsed_args(args: Seq<Seq<char>>) -> Option<(Seq<char>, Seq<char>)> {
    if args.len() < 3 {
        None
    } else {
        Some((args[1], args[2]))
    }
}

impl Config {
    /// The configuration that `args` gives, for a command line known to hold
    /// at least three arguments.
    pub fn new(args: &[String]) -> (r: Config)
        requires
            args@.len() >= 3,
        ensures
            parsed_args(arg_views(args@)) == Some((r.query@, r.file_path@)),
    {
        let query: String = args[1].clone();
        let file_path: String = args[2].clone();
        Config { query, file_path }
    }

    /// The configuration that `args` gives, or an error when it holds fewer
    /// than three arguments. The query and path are copies, independent of
    /// `args`.
    pub fn build(args: &[String]) -> (r: Result<Config, &'static str>)
        ensures
            match r {
                Ok(c) => parsed_args(arg_views(args@)) == Some((c.query@, c.file_path@)),
                Err(e) => parsed_args(arg_views(args@)) is None && e@ == NOT_ENOUGH_ARGUMENTS@,
            },
    {
        if args.len() < 3 {
            return Err(NOT_ENOUGH_ARGUMENTS);
        }
        let query: String = args[1].clone();
        let file_path: String = args[2].clone();
        Ok(Config { query, file_path })
    }
}

/// Arguments after the third change nothing: a command line with at least
/// three arguments gives the same query and path with more appended.
pub proof fn law_extra_arguments_are_ignored(args: Seq<String>, extra: Seq<String>)
    requires
        args.len() >= 3,
    ensures
        parsed_args(arg_views(args + extra)) == parsed_args(arg_views(args)),
{
    assert((args + extra)[1] == args[1]);
    assert((args + extra)[2] == args[2]);
}

} // verus!
