//! Configuration for the command-line wrapper around the library: the file
//! path taken from the argument list. The wrapper itself does the reading
//! and printing; only the decision made on the arguments lives here.

use vstd::prelude::*;

verus! {

/// What the command line asks for: the path of the file to print.
pub struct Config {
    pub file_path: String,
}

impl Config {
    /// The path is the second argument, after the program name; a shorter
    /// argument list is rejected with a usage message, and nothing else is.
    pub fn build(args: &[String]) -> (r: Result<Config, &'static str>)
        ensures
            match r {
                Ok(c) => args@.len() >= 2 && c.file_path@ == args@[1]@,
                Err(_) => args@.len() < 2,
            },
    {
        if args.len() < 2 {
            return Err("Wrong number of arguments: {args[0]} <file-path>");
        }
        let file_path = args[1].clone();
        Ok(Config { file_path })
    }
}

} // verus!
