//! The run configuration read from the command line.

use vstd::prelude::*;

use vstd::slice::slice_index_get;

verus! {

/// What the command line names: the source file to translate.
pub struct Config {
    pub filename: String,
}

impl Config {
    /// The configuration read from an argument list: the argument after the
    /// program name is the source file; fewer than two arguments are refused.
    pub fn new(args: &[String]) -> (r: Result<Config, &'static str>)
        ensures
            (r is Ok) == (args@.len() >= 2),
            r matches Ok(c) ==> c.filename@ == args@[1]@,
            r matches Err(e) ==> e@ == "not enough arguments"@,
    {
        if args.len() < 2 {
            return Result::Err("not enough arguments");
        }
        let filename = slice_index_get(args, 1).clone();
        Result::Ok(Config { filename })
    }
}

} // verus!
