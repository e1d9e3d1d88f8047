use std::collections::hash_map::DefaultHasher;
use std::hash::{Hash, Hasher};

use fm_offline_pos::base32::base32hex_encode;
use fm_offline_pos::config::{digest_text, get_federation_prefix, hash_pin, PosConfig};
use fm_offline_pos::keypad::{
    backspace, check_pin, handle_numpad, push_digit, PinCheck, PinSetup, PinStep,
};

fn invite(id: &[u8; 32]) -> String {
    let mut bytes = vec![1, 1, 32];
    bytes.extend(id);
    format!("fedimint{}", base32hex_encode(&bytes))
}

#[test]
fn a_till_is_set_up_from_an_invite() {
    let mut id = [0xabu8; 32];
    id[3] = 5;
    let config: PosConfig<u8> = PosConfig::from_invite(&invite(&id)).unwrap();
    assert_eq!(config.federation_id, format!("ababab05{}", "ab".repeat(28)));
    assert_eq!(config.pin_hash, "");
    assert_eq!(config.default_currency, "USD");
    assert!(config.cached_rates.is_empty());
    assert_eq!(config.rates_timestamp, 0);
    assert!(config.manual_rate.is_none());
    assert_eq!(
        get_federation_prefix(&config.federation_id),
        Ok([0xab, 0xab, 0xab, 5])
    );
    let refused: Result<PosConfig<u8>, String> = PosConfig::from_invite("x");
    assert_eq!(
        refused.unwrap_err(),
        "Invite code must start with 'fed1' or 'fedimint'"
    );
}

#[test]
fn prefixes_of_ids() {
    assert_eq!(get_federation_prefix("0102fFfe99"), Ok([1, 2, 255, 254]));
    assert_eq!(
        get_federation_prefix("010203"),
        Err("Federation ID too short".to_string())
    );
    assert_eq!(get_federation_prefix(""), Err("Federation ID too short".to_string()));
    assert_eq!(
        get_federation_prefix("012"),
        Err("Invalid federation ID hex: Odd number of digits".to_string())
    );
    assert_eq!(
        get_federation_prefix("01x2zz"),
        Err("Invalid federation ID hex: Invalid character 'x' at position 2".to_string())
    );
    assert_eq!(
        get_federation_prefix("0\u{e9}9"),
        Err("Invalid federation ID hex: Invalid character 'Ã' at position 1".to_string())
    );
}

#[test]
fn pins_are_hashed() {
    for pin in ["", "1234", "000000", "\u{e9}"] {
        let mut hasher = DefaultHasher::new();
        pin.hash(&mut hasher);
        assert_eq!(hash_pin(pin), format!("{:x}", hasher.finish()));
    }
    assert_ne!(hash_pin("1234"), "1234");
    assert_ne!(hash_pin("1234"), hash_pin("1235"));
    assert_eq!(digest_text(0), "0");
    assert_eq!(digest_text(u64::MAX), "ffffffffffffffff");
    let mut config: PosConfig<u8> = PosConfig::for_federation(&[0; 32]);
    config.set_pin("1234");
    assert!(config.accepts_pin("1234"));
    assert!(!config.accepts_pin("1243"));
}

fn enter(setup: &mut PinSetup, digits: &str) {
    for d in digits.chars() {
        setup.digit(d);
    }
}

fn said(step: PinStep) -> String {
    match step {
        PinStep::Refused(e) => e,
        other => panic!("{:?}", other),
    }
}

#[test]
fn a_pin_is_set_by_entering_it_twice() {
    let mut setup = PinSetup::new();
    enter(&mut setup, "123");
    assert_eq!(said(setup.confirm()), "PIN must be at least 4 digits");
    enter(&mut setup, "4567");
    assert_eq!(setup.pin, "123456");
    setup.erase();
    assert_eq!(setup.pin, "12345");
    assert!(setup.dot_filled(4));
    assert!(!setup.dot_filled(5));
    assert!(matches!(setup.confirm(), PinStep::EnterAgain));
    assert!(!setup.dot_filled(0));
    enter(&mut setup, "1234");
    assert_eq!(said(setup.confirm()), "PINs don't match");
    assert_eq!(setup.confirm_pin, "");
    enter(&mut setup, "123456");
    setup.erase();
    match setup.confirm() {
        PinStep::Done(hash) => assert_eq!(hash, hash_pin("12345")),
        other => panic!("{:?}", other),
    }
}

#[test]
fn a_pin_is_checked() {
    let hash = hash_pin("2468");
    let mut pin = String::new();
    for d in "2468".chars() {
        push_digit(&mut pin, d);
    }
    assert!(matches!(check_pin(&mut pin, &hash), PinCheck::Admitted));
    backspace(&mut pin);
    match check_pin(&mut pin, &hash) {
        PinCheck::Refused(e) => assert_eq!(e, "Wrong PIN"),
        other => panic!("{:?}", other),
    }
    assert_eq!(pin, "");
    backspace(&mut pin);
    assert_eq!(pin, "");
}

fn typed(keys: &[&str]) -> String {
    let mut text = String::new();
    for key in keys {
        handle_numpad(&mut text, &key.to_string());
    }
    text
}

#[test]
fn amounts_are_entered_key_by_key() {
    assert_eq!(typed(&["."]), "");
    assert_eq!(typed(&["0", "5"]), "0");
    assert_eq!(typed(&["0", ".", "5"]), "0.5");
    assert_eq!(typed(&["1", ".", "2", ".", "3", "4"]), "1.23");
    assert_eq!(typed(&["1", ".", "2", "\u{232b}", "\u{232b}", "\u{232b}", "\u{232b}"]), "");
    assert_eq!(typed(&["9"; 12]), "9".repeat(10));
    let mut keys = vec!["9"; 12];
    keys.push(".");
    keys.push("5");
    assert_eq!(typed(&keys), format!("{}.", "9".repeat(10)));
    assert_eq!(typed(&["1", "0", "00"]), "1000");
}
