//! The decisions of a run: what to print once the file was read, or the
//! error to surface.

use vstd::prelude::*;

use crate::config::Config;
use crate::search::{matching_lines, search};
use crate::text::views_of;

verus! {

/// A failed run: reading the file or writing the output failed. Holds the
/// description of the underlying cause.
pub struct RunError {
    pub cause: String,
}

/// What a run prints for `config`, given the outcome of reading its file:
/// on a failed read, that error and nothing to print; otherwise the lines of
/// the file that hold the query (case-sensitive), in file order.
pub fn lines_to_print<'a>(config: &Config, read: Result<&'a str, RunError>) -> (r: Result<
    Vec<&'a str>,
    RunError,
>)
    ensures
        match read {
            Err(e) => r == Err::<Vec<&'a str>, RunError>(e),
            Ok(contents) => r is Ok && views_of(r->Ok_0@) == matching_lines(
                config.query@,
                contents@,
            ),
        },
{
    match read {
        Err(e) => Err(e),
        Ok(contents) => Ok(search(config.query.as_str(), contents)),
    }
}

} // verus!
