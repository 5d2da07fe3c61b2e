use vstd::prelude::*;

verus! {

/// Why a debouncer configuration was refused.
#[derive(Clone, Copy, Debug, PartialEq, Eq, Structural)]
pub enum ConfigError {
    /// The requested tick interval exceeds the quiet timeout.
    TickAboveTimeout { tick: u128, timeout: u128 },
}

/// The interval between ticks, in nanoseconds: the requested one, which may
/// not exceed `timeout`, or else a quarter of `timeout`.
pub fn tick_interval(timeout: u128, tick_rate: Option<u128>) -> (r: Result<u128, ConfigError>)
    ensures
        match tick_rate {
            Some(v) => if v > timeout {
                r == Err::<u128, ConfigError>(ConfigError::TickAboveTimeout { tick: v, timeout })
            } else {
                r == Ok::<u128, ConfigError>(v)
            },
            None => r == Ok::<u128, ConfigError>(timeout / 4),
        },
{
    match tick_rate {
        Some(v) => {
            if v > timeout {
                Err(ConfigError::TickAboveTimeout { tick: v, timeout })
            } else {
                Ok(v)
            }
        },
        None => Ok(timeout / 4),
    }
}

} // verus!
