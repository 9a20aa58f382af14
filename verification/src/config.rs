//! The run configuration and how it is resolved from the command line.

use vstd::prelude::*;
use crate::utf8::str_eq;

verus! {

/// What one run searches for, where, and how.
#[derive(Debug, PartialEq, Eq)]
pub struct Config {
    pub query: String,
    pub filename: String,
    pub case_sensitive: bool,
}

/// Why no configuration could be resolved.
#[derive(Debug, Clone, Copy, PartialEq, Eq)]
pub enum ConfigError {
    /// No positional argument was given.
    MissingQuery,
    /// A query was given, but no file name after it.
    MissingFilename,
}

/// The mathematical value of a [`Config`].
pub struct ConfigView {
    pub query: Seq<char>,
    pub filename: Seq<char>,
    pub case_sensitive: bool,
}

impl View for Config {
    type V = ConfigView;

    open spec fn view(&self) -> ConfigView {
        ConfigView {
            query: self.query@,
            filename: self.filename@,
            case_sensitive: self.case_sensitive,
        }
    }
}

/// The views of a sequence of arguments.
pub open spec fn arg_views(args: Seq<String>) -> Seq<Seq<char>> {
    args.map_values(|a: String| a@)
}

/// The third positional argument that switches case sensitivity off.
pub const CASE_INSENSITIVE_FLAG: &'static str = "--case-insensitive";

/// Whether the positional arguments ask for a search without regard to
/// case: the third one, and only the third, is the flag.
pub open spec fn asks_case_insensitive(args: Seq<Seq<char>>) -> bool {
    args.len() >= 3 && args[2] == CASE_INSENSITIVE_FLAG@
}

/// The configuration that the positional arguments `args` (the program's
/// name not among them) and the environment resolve to.
/// `env_case_insensitive` says whether the environment asks for a search
/// without regard to case.
pub open spec fn resolve(args: Seq<Seq<char>>, env_case_insensitive: bool) -> Result<
    ConfigView,
    ConfigError,
> {
    if args.len() == 0 {
        Err(ConfigError::MissingQuery)
    } else if args.len() == 1 {
        Err(ConfigError::MissingFilename)
    } else {
        Ok(
            ConfigView {
                query: args[0],
                filename: args[1],
                case_sensitive: !env_case_insensitive && !asks_case_insensitive(args),
            },
        )
    }
}

impl ConfigError {
    /// The text that describes the error to a user.
    pub fn message(&self) -> (r: &'static str)
        ensures
            r@ == match *self {
                ConfigError::MissingQuery => "Didn't get a query string"@,
                ConfigError::MissingFilename => "Didn't get a file name"@,
            },
    {
        match self {
            ConfigError::MissingQuery => "Didn't get a query string",
            ConfigError::MissingFilename => "Didn't get a file name",
        }
    }
}

impl Config {
    /// Resolves the configuration from the positional arguments, the
    /// program's name not among them, and from whether the environment
    /// asks for a search without regard to case. The first argument is
    /// the query and the second the file name; the third may be the flag
    /// that switches case sensitivity off; what else is given is ignored.
    pub fn new(args: &[String], env_case_insensitive: bool) -> (r: Result<Config, ConfigError>)
        ensures
            args@.len() == 0 ==> r == Err::<Config, ConfigError>(ConfigError::MissingQuery),
            args@.len() == 1 ==> r == Err::<Config, ConfigError>(ConfigError::MissingFilename),
            args@.len() >= 2 ==> r is Ok,
            match r {
                Ok(config) => resolve(arg_views(args@), env_case_insensitive) == Ok::<
                    ConfigView,
                    ConfigError,
                >(config@),
                Err(e) => resolve(arg_views(args@), env_case_insensitive) == Err::<
                    ConfigView,
                    ConfigError,
                >(e),
            },
    {
        if args.len() == 0 {
            return Err(ConfigError::MissingQuery);
        }
        if args.len() == 1 {
            return Err(ConfigError::MissingFilename);
        }
        let query = args[0].clone();
        let filename = args[1].clone();
        let mut case_sensitive = !env_case_insensitive;
        if args.len() >= 3 && str_eq(args[2].as_str(), CASE_INSENSITIVE_FLAG) {
            case_sensitive = false;
        }
        Ok(Config { query, filename, case_sensitive })
    }
}

/// Resolution fails for want of a query with no argument, for want of a
/// file name with one, and succeeds with two or more.
pub proof fn lemma_resolve_needs_two_arguments(args: Seq<Seq<char>>, env_case_insensitive: bool)
    ensures
        args.len() == 0 ==> resolve(args, env_case_insensitive) == Err::<ConfigView, ConfigError>(
            ConfigError::MissingQuery,
        ),
        args.len() == 1 ==> resolve(args, env_case_insensitive) == Err::<ConfigView, ConfigError>(
            ConfigError::MissingFilename,
        ),
        args.len() >= 2 ==> {
            &&& resolve(args, env_case_insensitive) is Ok
            &&& resolve(args, env_case_insensitive).unwrap().query == args[0]
            &&& resolve(args, env_case_insensitive).unwrap().filename == args[1]
        },
{
}

/// The flag as third argument switches case sensitivity off, whatever the
/// environment says.
pub proof fn lemma_flag_switches_case_off(args: Seq<Seq<char>>, env_case_insensitive: bool)
    requires
        args.len() >= 3,
        args[2] == CASE_INSENSITIVE_FLAG@,
    ensures
        resolve(args, env_case_insensitive) is Ok,
        !resolve(args, env_case_insensitive).unwrap().case_sensitive,
{
}

/// A third argument that is not the flag changes nothing: the result is
/// that of the first two arguments alone, for which the search regards
/// case unless the environment says otherwise.
pub proof fn lemma_other_third_argument_ignored(args: Seq<Seq<char>>, env_case_insensitive: bool)
    requires
        args.len() >= 3,
        args[2] != CASE_INSENSITIVE_FLAG@,
    ensures
        resolve(args, env_case_insensitive) == resolve(args.take(2), env_case_insensitive),
        resolve(args, env_case_insensitive).unwrap().case_sensitive == !env_case_insensitive,
{
}

/// Arguments after the third never change the result.
pub proof fn lemma_further_arguments_ignored(args: Seq<Seq<char>>, env_case_insensitive: bool)
    requires
        args.len() >= 3,
    ensures
        resolve(args, env_case_insensitive) == resolve(args.take(3), env_case_insensitive),
{
}

} // verus!
