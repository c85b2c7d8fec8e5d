//! Run configuration: the query, the file path and the case flag,
//! assembled and validated from the raw argument list.

use vstd::prelude::*;

verus! {

/// Why a configuration could not be built, or why the file it names
/// could not be read.
#[derive(Debug)]
pub enum ConfigError {
    /// No query argument was given.
    MissingQuery,
    /// No file-path argument was given.
    MissingFilename,
    /// Reading the file failed; carries the reported reason.
    Io(String),
}

impl ConfigError {
    /// The human-readable message for this error.
    pub open spec fn spec_message(&self) -> Seq<char> {
        match self {
            ConfigError::MissingQuery => "Please input String you want to find e.g. text"@,
            ConfigError::MissingFilename => "Please input a location to file you wanted to grep e.g. file.txt"@,
            ConfigError::Io(m) => m@,
        }
    }

    /// Render this error as its fixed human-readable message.
    pub fn message(&self) -> (r: String)
        ensures
            r@ == self.spec_message(),
    {
        match self {
            ConfigError::MissingQuery => "Please input String you want to find e.g. text".to_owned(),
            ConfigError::MissingFilename => "Please input a location to file you wanted to grep e.g. file.txt".to_owned(),
            ConfigError::Io(m) => m.clone(),
        }
    }
}

/// An immutable, validated run configuration. One is built per run from
/// the raw arguments; a failed build leaves no instance behind.
#[derive(Debug)]
pub struct Config {
    query: String,
    file_path: String,
    case_insensitive: bool,
}

impl Config {
    /// The substring to search for.
    pub closed spec fn spec_query(&self) -> Seq<char> {
        self.query@
    }

    /// The path of the file to search.
    pub closed spec fn spec_file_path(&self) -> Seq<char> {
        self.file_path@
    }

    /// Whether matching ignores case.
    pub closed spec fn spec_case_insensitive(&self) -> bool {
        self.case_insensitive
    }

    /// Build a configuration from the raw argument list (`args[0]` is the
    /// program name and is ignored) and the presence of the case toggle in
    /// the environment. `args[1]` is the query and `args[2]` the file path;
    /// if either is absent the matching error comes back instead.
    pub fn build(args: &[String], ignore_case_set: bool) -> (r: Result<Config, ConfigError>)
        ensures
            r is Ok <==> args@.len() >= 3,
            args@.len() < 2 ==> r == Err::<Config, ConfigError>(ConfigError::MissingQuery),
            args@.len() == 2 ==> r == Err::<Config, ConfigError>(ConfigError::MissingFilename),
            r is Ok ==> {
                &&& r->Ok_0.spec_query() == args@[1]@
                &&& r->Ok_0.spec_file_path() == args@[2]@
                &&& r->Ok_0.spec_case_insensitive() == ignore_case_set
            },
    {
        if args.len() < 2 {
            return Err(ConfigError::MissingQuery);
        }
        if args.len() < 3 {
            return Err(ConfigError::MissingFilename);
        }
        let query = args[1].clone();
        let file_path = args[2].clone();
        Ok(Config { query, file_path, case_insensitive: ignore_case_set })
    }

    /// The substring to search for.
    pub fn get_query(&self) -> (r: &str)
        ensures
            r@ == self.spec_query(),
    {
        self.query.as_str()
    }

    /// The path of the file to search.
    pub fn get_file_path(&self) -> (r: &str)
        ensures
            r@ == self.spec_file_path(),
    {
        self.file_path.as_str()
    }

    /// Whether matching ignores case.
    pub fn get_case_insensitive(&self) -> (r: &bool)
        ensures
            *r == self.spec_case_insensitive(),
    {
        &self.case_insensitive
    }
}

} // verus!
