//! Process exit codes.
use vstd::prelude::*;

verus! {

/// The check succeeded.
pub const SUCCESS: u8 = 0;
/// The check failed.
pub const CHECK_FAILED: u8 = 1;
/// The command line could not be understood.
pub const BAD_CLI_USAGE: u8 = 2;
/// The configuration file could not be read.
pub const CONFIG_NOT_READABLE: u8 = 3;
/// The configuration file is not valid YAML.
pub const CONFIG_PARSE_ERROR: u8 = 4;
/// The configuration file does not describe a valid configuration.
pub const CONFIG_VALIDATION_ERROR: u8 = 5;
/// The named check is not in the configuration.
pub const CHECK_NOT_FOUND: u8 = 6;
/// A probe timed out.
pub const TIMEOUT: u8 = 7;
/// Any other failure.
pub const INTERNAL_ERROR: u8 = 8;

} // verus!
