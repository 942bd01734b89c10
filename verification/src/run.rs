//! The decisions of the command runner: which exit code and message a
//! failure is reported with.
use crate::config::{config_error_text, config_exit_code, lookup, Check, Config, ConfigError};
use crate::exit;
use vstd::prelude::*;

verus! {

pub open spec fn unknown_check_text(name: Seq<char>) -> Seq<char> {
    "unknown check '"@ + name + "'"@
}

/// The check named `name`, or the exit code and message for a name that the
/// configuration does not have.
pub fn lookup_check<'a>(config: &'a Config, name: &str) -> (r: Result<&'a Check, (u8, String)>)
    ensures
        match r {
            Ok(c) => lookup(config@, name@) == Some(c@),
            Err((code, msg)) => lookup(config@, name@) is None && code == exit::CHECK_NOT_FOUND
                && msg@ == unknown_check_text(name@),
        },
{
    match config.get(name) {
        Some(c) => Ok(c),
        None => {
            let mut msg = "unknown check '".to_string();
            msg.append(name);
            msg.append("'");
            Err((exit::CHECK_NOT_FOUND, msg))
        },
    }
}

/// The exit code and message for a configuration that could not be loaded.
pub fn config_failure(err: &ConfigError) -> (r: (u8, String))
    ensures
        r.0 == config_exit_code(err@),
        r.1@ == config_error_text(err@),
{
    (err.exit_code(), err.message())
}

} // verus!
