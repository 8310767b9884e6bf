//! What a run of the search is asked to do.

use vstd::prelude::*;
use vstd::string::*;

verus! {

/// The query, the name of the file to search, and whether case counts.
pub struct Config {
    pub query: String,
    pub filename: String,
    pub case_sensitive: bool,
}

impl Config {
    /// Reads the query and the file name from the arguments of the process:
    /// the program's name comes first, then the query, then the file name.
    /// Case does not count. With fewer than three arguments there is nothing
    /// to read, and the error says so.
    pub fn new(args: &[String]) -> (result: Result<Config, &'static str>)
        ensures
            args@.len() < 3 ==> (result matches Err(message) && message@
                == "not enough arguments"@),
            args@.len() >= 3 ==> (result matches Ok(config) && config.query@ == args@[1]@
                && config.filename@ == args@[2]@ && !config.case_sensitive),
    {
        if args.len() < 3 {
            return Err("not enough arguments");
        }
        let query = args[1].clone();
        let filename = args[2].clone();
        Ok(Config { query, filename, case_sensitive: false })
    }
}

} // verus!
