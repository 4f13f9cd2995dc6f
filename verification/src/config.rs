//! The search configuration, built from a command line.

use vstd::prelude::*;
use vstd::string::StringExecFns;

verus! {

/// Why a configuration could not be built from the argument list.
#[derive(Clone, Copy, PartialEq, Eq, Structural, Debug)]
pub enum ConfigError {
    MissingPath,
    MissingQuery,
}

impl ConfigError {
    /// The report shown for this failure.
    pub fn message(&self) -> (r: &'static str)
        ensures
            *self is MissingPath ==> r@ == "Path must be specified"@,
            *self is MissingQuery ==> r@ == "Query must be specified"@,
    {
        match self {
            ConfigError::MissingPath => "Path must be specified",
            ConfigError::MissingQuery => "Query must be specified",
        }
    }
}

/// What a search run needs: where to look, what to look for, and the two
/// mode flags.
pub struct Config {
    pub path: String,
    pub query: String,
    pub case_sensitive: bool,
    pub is_dir: bool,
}

/// How a textual flag argument is read: exactly "true" switches the flag on;
/// "false" — like anything else — leaves it off.
pub open spec fn flag_of(s: Seq<char>) -> bool {
    s == "true"@
}

fn flag_arg(s: &String) -> (b: bool)
    ensures
        b == flag_of(s@),
{
    let t = String::from_str("true");
    s.eq(&t)
}

impl Config {
    /// Build a configuration from the argument list, program name first: the
    /// path, then the query, then two optional flags — case sensitivity and
    /// directory mode. A missing flag is off.
    pub fn new(args: &Vec<String>) -> (r: Result<Config, ConfigError>)
        ensures
            args@.len() < 2 ==> r == Err::<Config, ConfigError>(ConfigError::MissingPath),
            args@.len() == 2 ==> r == Err::<Config, ConfigError>(ConfigError::MissingQuery),
            args@.len() >= 3 ==> {
                &&& r is Ok
                &&& r->Ok_0.path@ == args@[1]@
                &&& r->Ok_0.query@ == args@[2]@
                &&& r->Ok_0.case_sensitive == (args@.len() >= 4 && flag_of(args@[3]@))
                &&& r->Ok_0.is_dir == (args@.len() >= 5 && flag_of(args@[4]@))
            },
    {
        if args.len() < 2 {
            return Err(ConfigError::MissingPath);
        }
        if args.len() < 3 {
            return Err(ConfigError::MissingQuery);
        }
        let path = args[1].clone();
        let query = args[2].clone();
        let case_sensitive = if args.len() >= 4 {
            flag_arg(&args[3])
        } else {
            false
        };
        let is_dir = if args.len() >= 5 {
            flag_arg(&args[4])
        } else {
            false
        };
        Ok(Config { path, query, case_sensitive, is_dir })
    }
}

} // verus!
