use vram_booster::config::{ceiling_for, parse_protect_session, parse_reserve_mib, ConfigError};

const GIB: u64 = 1 << 30;

#[test]
fn reserve_is_a_whole_number_below_the_vram() {
    assert_eq!(parse_reserve_mib(None, GIB), Ok(0));
    assert_eq!(parse_reserve_mib(Some("256"), GIB), Ok(256));
    assert_eq!(parse_reserve_mib(Some("0"), GIB), Ok(0));
    assert_eq!(parse_reserve_mib(Some("abc"), GIB), Err(ConfigError::ReserveNotANumber));
    assert_eq!(parse_reserve_mib(Some("-1"), GIB), Err(ConfigError::ReserveNotANumber));
    assert_eq!(parse_reserve_mib(Some("1024"), GIB), Err(ConfigError::ReserveTooLarge));
    assert_eq!(parse_reserve_mib(Some("1023"), GIB), Ok(1023));
    assert_eq!(
        parse_reserve_mib(Some("18446744073709551615"), GIB),
        Err(ConfigError::ReserveTooLarge)
    );
}

#[test]
fn session_protection_is_zero_or_one() {
    assert_eq!(parse_protect_session(None), Ok(true));
    assert_eq!(parse_protect_session(Some("1")), Ok(true));
    assert_eq!(parse_protect_session(Some("0")), Ok(false));
    assert_eq!(parse_protect_session(Some("yes")), Err(ConfigError::ProtectSessionInvalid));
}

#[test]
fn ceiling_is_vram_less_reserve() {
    assert_eq!(ceiling_for(1048577, 1), Some(1));
    assert_eq!(ceiling_for(1048576, 1), None);
}
