//! Startup configuration: validated settings and the symbol membership
//! check used against each venue's market list.
//!
//! Reading the configuration file and fetching the venues' market lists
//! are I/O and live with the binary; the rules they must satisfy are
//! stated and checked here.

use vstd::prelude::*;

use crate::text::{eq_ignore_case, str_eq_ignore_case};

verus! {

/// Validated startup settings.
#[derive(Clone, Debug)]
pub struct AppConfig {
    pub hl_symbol: String,
    pub pdx_symbol: String,
    pub depth: usize,  // 1..=10
    pub tick_ms: u64,  // 50..=2000
}

/// Why a configuration was rejected.
#[derive(Clone, Copy, Debug, PartialEq, Eq, Structural)]
pub enum ConfigError {
    EmptyHlSymbol,
    EmptyPdxSymbol,
    DepthOutOfRange,
    TickIntervalOutOfRange,
}

impl ConfigError {
    /// A diagnostic for the startup error report.
    pub fn message(&self) -> (r: &'static str)
        ensures
            *self is EmptyHlSymbol ==> r@ == "pair.hl_symbol must not be empty"@,
            *self is EmptyPdxSymbol ==> r@ == "pair.pdx_symbol must not be empty"@,
            *self is DepthOutOfRange ==> r@ == "display.depth must be between 1 and 10"@,
            *self is TickIntervalOutOfRange ==> r@
                == "display.tick_ms must be between 50 and 2000"@,
    {
        match self {
            ConfigError::EmptyHlSymbol => "pair.hl_symbol must not be empty",
            ConfigError::EmptyPdxSymbol => "pair.pdx_symbol must not be empty",
            ConfigError::DepthOutOfRange => "display.depth must be between 1 and 10",
            ConfigError::TickIntervalOutOfRange => "display.tick_ms must be between 50 and 2000",
        }
    }
}

impl AppConfig {
    /// Validate raw settings: both symbols non-empty, depth within 1 to
    /// 10 levels, tick interval within 50 to 2000 milliseconds.  The
    /// first violated rule, in that order, names the error.
    pub fn new(hl_symbol: String, pdx_symbol: String, depth: usize, tick_ms: u64) -> (r: Result<
        AppConfig,
        ConfigError,
    >)
        ensures
            r is Ok <==> hl_symbol@.len() > 0 && pdx_symbol@.len() > 0 && 1 <= depth <= 10 && 50
                <= tick_ms <= 2000,
            r matches Ok(c) ==> c.hl_symbol == hl_symbol && c.pdx_symbol == pdx_symbol && c.depth
                == depth && c.tick_ms == tick_ms,
            r matches Err(e) ==> e == (if hl_symbol@.len() == 0 {
                ConfigError::EmptyHlSymbol
            } else if pdx_symbol@.len() == 0 {
                ConfigError::EmptyPdxSymbol
            } else if !(1 <= depth <= 10) {
                ConfigError::DepthOutOfRange
            } else {
                ConfigError::TickIntervalOutOfRange
            }),
    {
        if hl_symbol.as_str().is_empty() {
            return Err(ConfigError::EmptyHlSymbol);
        }
        if pdx_symbol.as_str().is_empty() {
            return Err(ConfigError::EmptyPdxSymbol);
        }
        if depth == 0 || depth > 10 {
            return Err(ConfigError::DepthOutOfRange);
        }
        if tick_ms < 50 || tick_ms > 2000 {
            return Err(ConfigError::TickIntervalOutOfRange);
        }
        Ok(AppConfig { hl_symbol, pdx_symbol, depth, tick_ms })
    }
}

/// Whether `symbol` occurs in a venue's market list, compared ASCII
/// case-insensitively: the membership test of startup symbol validation.
pub fn symbol_listed(known: &Vec<String>, symbol: &str) -> (r: bool)
    ensures
        r == exists|i: int|
            0 <= i < known@.len() && eq_ignore_case((#[trigger] known@[i])@, symbol@),
{
    let mut i: usize = 0;
    while i < known.len()
        invariant
            i <= known@.len(),
            forall|j: int| 0 <= j < i ==> !eq_ignore_case((#[trigger] known@[j])@, symbol@),
        decreases known@.len() - i,
    {
        if str_eq_ignore_case(known[i].as_str(), symbol) {
            return true;
        }
        i += 1;
    }
    false
}

} // verus!
