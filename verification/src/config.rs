use vstd::prelude::*;

use crate::text::{chars_eq, chars_of, parse_u64, parse_u64_spec};

verus! {

/// Bytes in a MiB.
pub const MIB: u64 = 1048576;

/// The ceiling on app.slice: the VRAM less the reserve. None when the reserve
/// is 0, which turns the ceiling off, or when nothing would be left.
pub open spec fn ceiling_spec(vram_total: u64, reserve_mib: u64) -> Option<u64> {
    if reserve_mib > 0 && reserve_mib * MIB < vram_total {
        Some((vram_total - reserve_mib * MIB) as u64)
    } else {
        None
    }
}

/// The ceiling on app.slice: `vram_total` less `reserve_mib` MiB. None when
/// the reserve is 0, which turns the ceiling off, or when nothing would be left.
pub fn ceiling_for(vram_total: u64, reserve_mib: u64) -> (r: Option<u64>)
    ensures
        r == ceiling_spec(vram_total, reserve_mib),
{
    if reserve_mib == 0 {
        return None;
    }
    match reserve_mib.checked_mul(MIB) {
        None => None,
        Some(r) => match vram_total.checked_sub(r) {
            None => None,
            Some(c) => if c > 0 {
                Some(c)
            } else {
                None
            },
        },
    }
}

/// A setting from the environment that stops the daemon from starting.
#[derive(Clone, Copy, Debug, PartialEq, Eq, Structural)]
pub enum ConfigError {
    /// `VRAM_RESERVE_MIB` is not a whole number.
    ReserveNotANumber,
    /// `VRAM_RESERVE_MIB` is as large as the VRAM, or larger.
    ReserveTooLarge,
    /// `VRAM_PROTECT_SESSION` is neither `0` nor `1`.
    ProtectSessionInvalid,
}

/// The reserve that `VRAM_RESERVE_MIB` (`raw`, if set) asks for on a GPU of
/// `vram_total` bytes: 0 (no ceiling) when unset, else a whole number of MiB
/// below the VRAM size; anything else is refused.
pub open spec fn reserve_spec(raw: Option<Seq<char>>, vram_total: u64) -> Result<u64, ConfigError> {
    match raw {
        None => Ok(0),
        Some(v) => match parse_u64_spec(v) {
            None => Err(ConfigError::ReserveNotANumber),
            Some(n) => if n == 0 || n * MIB < vram_total {
                Ok(n)
            } else {
                Err(ConfigError::ReserveTooLarge)
            },
        },
    }
}

/// The text of an optional string slice.
pub open spec fn raw_view(raw: Option<&str>) -> Option<Seq<char>> {
    match raw {
        Some(v) => Some(v@),
        None => None,
    }
}

/// The reserve that `VRAM_RESERVE_MIB` asks for, given its value if set, on
/// a GPU of `vram_total` bytes: 0 (no ceiling) when unset, else its whole
/// number of MiB, which must lie below the VRAM size.
pub fn parse_reserve_mib(raw: Option<&str>, vram_total: u64) -> (r: Result<u64, ConfigError>)
    ensures
        r == reserve_spec(raw_view(raw), vram_total),
{
    match raw {
        Some(v) => {
            let cs = chars_of(v);
            match parse_u64(cs.as_slice()) {
                Some(n) => {
                    if n == 0 {
                        return Ok(0);
                    }
                    match n.checked_mul(MIB) {
                        Some(bytes) => if bytes < vram_total {
                            Ok(n)
                        } else {
                            Err(ConfigError::ReserveTooLarge)
                        },
                        None => Err(ConfigError::ReserveTooLarge),
                    }
                },
                None => Err(ConfigError::ReserveNotANumber),
            }
        },
        None => Ok(0),
    }
}

/// Whether session.slice gets protected, given the value of
/// `VRAM_PROTECT_SESSION` if set: on when unset or `1`, off when `0`;
/// anything else is refused.
pub fn parse_protect_session(raw: Option<&str>) -> (r: Result<bool, ConfigError>)
    ensures
        r == match raw_view(raw) {
            None => Ok(true),
            Some(v) => if v == "0"@ {
                Ok(false)
            } else if v == "1"@ {
                Ok(true)
            } else {
                Err(ConfigError::ProtectSessionInvalid)
            },
        },
{
    match raw {
        Some(v) => {
            let cs = chars_of(v);
            if chars_eq(cs.as_slice(), chars_of("0").as_slice()) {
                Ok(false)
            } else if chars_eq(cs.as_slice(), chars_of("1").as_slice()) {
                Ok(true)
            } else {
                Err(ConfigError::ProtectSessionInvalid)
            }
        },
        None => Ok(true),
    }
}

}
