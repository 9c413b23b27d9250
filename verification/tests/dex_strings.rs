//! Strings of a DEX image as code units and as texts.
use rasc::rusty_dex::strings::DexString;

#[test]
fn a_string_keeps_its_code_units() {
    let plain: DexString = "Hello!".into();
    assert_eq!(plain.utf16(), [72, 101, 108, 108, 111, 33]);
    assert_eq!(plain.as_str(), "Hello!");
    // A character past the first plane is a pair of surrogates, and reads back as itself.
    let wide: DexString = "a\u{1F600}z".to_owned().into();
    assert_eq!(wide.utf16(), [0x61, 0xD83D, 0xDE00, 0x7A]);
    assert_eq!(wide.as_str(), "a\u{1F600}z");
    assert_eq!(DexString::from_utf16(vec![0x61, 0xD83D, 0xDE00, 0x7A]), wide);
}

#[test]
fn a_lone_surrogate_is_shown_as_a_replacement() {
    for units in [vec![0x61, 0xD83D], vec![0x61, 0xDE00], vec![0x61, 0xDE00, 0x62]] {
        let string = DexString::from_utf16(units.clone());
        assert_eq!(string.utf16(), units);
        assert_eq!(string.as_str(), String::from_utf16_lossy(&units));
    }
    // Two high surrogates in a row: only the second finds its partner.
    let string = DexString::from_utf16(vec![0xD83D, 0xD83D, 0xDE00]);
    assert_eq!(string.as_str(), "\u{FFFD}\u{1F600}");
}

#[test]
fn strings_are_ordered_by_their_code_units() {
    let high = DexString::from_utf16(vec![0xFFFD]);
    let pair = DexString::from_utf16(vec![0xD83D, 0xDE00]);
    assert!(pair < high);
    assert!(DexString::from("ab") < DexString::from("b"));
    assert!(DexString::from("a") < DexString::from("ab"));
}
