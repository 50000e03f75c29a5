//! Resolving a search configuration from a raw argument list.

use vstd::prelude::*;

verus! {

/// The two ways a run can fail: the argument list is too short, or the
/// file named by it cannot be read (the payload carries the underlying
/// cause's description).
#[derive(Debug)]
pub enum GrepError {
    MissingArguments,
    FileReadError(String),
}

impl GrepError {
    /// A human-readable description of the error.
    pub fn message(&self) -> (r: String)
        ensures
            self matches GrepError::MissingArguments ==> r@ == "expected args length is two"@,
            forall|m: String| *self == GrepError::FileReadError(m) ==> r@ == m@,
    {
        match self {
            GrepError::MissingArguments => String::from_str("expected args length is two"),
            GrepError::FileReadError(m) => String::from_str(m.as_str()),
        }
    }
}

/// What one search run works on: the query, the file to search, and
/// whether matching is case-sensitive.
pub struct Config {
    pub query: String,
    pub filename: String,
    pub case_sensitive: bool,
}

impl Config {
    /// Resolves a configuration from the raw argument list.  The first
    /// argument is the program name; the next two are the query and the
    /// filename, and any further ones are ignored.  `case_insensitive_set`
    /// says whether the environment requested case-insensitive matching
    /// (the caller derives it from the presence of the `CASE_INSENSITIVE`
    /// environment variable).
    pub fn new(args: &Vec<String>, case_insensitive_set: bool) -> (r: Result<Config, GrepError>)
        ensures
            args@.len() < 3 ==> r == Err::<Config, GrepError>(GrepError::MissingArguments),
            args@.len() >= 3 ==> {
                &&& r matches Ok(c)
                &&& c.query@ == args@[1]@
                &&& c.filename@ == args@[2]@
                &&& c.case_sensitive == !case_insensitive_set
            },
    {
        if args.len() < 3 {
            return Err(GrepError::MissingArguments);
        }
        let query = String::from_str(args[1].as_str());
        let filename = String::from_str(args[2].as_str());
        Ok(Config { query, filename, case_sensitive: !case_insensitive_set })
    }
}

} // verus!
