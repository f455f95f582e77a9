//! The one thing the library asks of the host's logging: that no level is
//! filtered out before the host's logger sees it.

use log::{LevelFilter, SetLoggerError};
use vstd::prelude::*;

verus! {

/// `log::SetLoggerError`: the answer of `log::set_logger` where a logger was
/// installed before.
#[verifier::external_type_specification]
#[verifier::external_body]
pub struct ExSetLoggerError(SetLoggerError);

/// `log::set_max_level` with `LevelFilter::Trace`: records of every level
/// reach the installed logger from now on. It returns nothing.
#[verifier::external_body]
fn open_all_levels() {
    log::set_max_level(LevelFilter::Trace)
}

/// Finishes the installation of the host's logger. `installed` is what
/// `log::set_logger` answered: where it installed the logger, every level is
/// opened; where it refused, nothing is touched. The answer is handed on.
pub fn init(installed: Result<(), SetLoggerError>) -> (r: Result<(), SetLoggerError>)
    ensures
        r == installed,
{
    if installed.is_ok() {
        open_all_levels();
    }
    installed
}

} // verus!
