use alc::keycode::Keycode::{self, _NO, _A, _B, _C, _E, _1, _7, _9, _ZERO, _SPC, _SFT, _ENT, _DOT, _EXLM, _LPRN, _MINS, _QUOT, _DQUO, _LT, _LCBR, _LBRC, _TAB, _LS};
use alc::keycode::{generate_default_keycode_set, KeycodeOptions};

#[test]
fn test_creating_enum_from_string() {
    assert_eq!(Keycode::from_name("_A").unwrap(), _A);
}

#[test]
fn a_to_keycode() {
    let res: Vec<Keycode> = vec![_A];
    assert_eq!(Keycode::from_char('a', &KeycodeOptions::default()), res);
}

#[test]
fn cap_e_to_keycode() {
    let res: Vec<Keycode> = vec![_SFT, _E];
    assert_eq!(Keycode::from_char('E', &KeycodeOptions::default()), res);
}

#[test]
fn newline_to_keycode() {
    let res: Vec<Keycode> = vec![_ENT];
    assert_eq!(Keycode::from_char('\n', &KeycodeOptions::default()), res)
}

#[test]
fn acb_to_keycodes() {
    let res: Vec<Keycode> = vec![_A, _SFT, _C, _B];
    assert_eq!(Keycode::from_string("aCb", &KeycodeOptions::default()), res);
}

#[test]
fn test_default_keycodes() {
    let s = generate_default_keycode_set(&KeycodeOptions::default());
    println!("default keycodes {:?}", s);
    assert!(s.contains(&_SPC));
}

#[test]
fn default_set_has_each_keycode_once() {
    let s = generate_default_keycode_set(&KeycodeOptions::default());
    // 26 letters, comma and dot, nine misc symbols, four inclusions
    assert_eq!(s.len(), 28 + 9 + 4);
    let mut sorted = s.clone();
    sorted.sort();
    sorted.dedup();
    assert_eq!(sorted.len(), s.len());
    assert!(!s.contains(&_1));
}

#[test]
fn explicit_no_is_left_out() {
    let mut o = KeycodeOptions::default();
    o.include_alphas = false;
    o.include_misc_symbols = false;
    o.explicit_inclusions = vec![_NO, _TAB, _TAB];
    assert_eq!(generate_default_keycode_set(&o), vec![_TAB]);
}

#[test]
fn shifted_symbols_follow_options() {
    let mut o = KeycodeOptions::default();
    assert_eq!(Keycode::from_char('!', &o), vec![_SFT, _1]);
    assert_eq!(Keycode::from_char('(', &o), vec![_SFT, _9]);
    assert_eq!(Keycode::from_char('{', &o), vec![_SFT, _LBRC]);
    o.include_number_symbols = true;
    assert_eq!(Keycode::from_char('!', &o), vec![_EXLM]);
    assert_eq!(Keycode::from_char('(', &o), vec![_LPRN]);
    o.include_brackets = true;
    assert_eq!(Keycode::from_char('{', &o), vec![_LCBR]);
    assert_eq!(Keycode::from_char('<', &o), vec![_LT]);
}

#[test]
fn typographic_variants_normalise() {
    let o = KeycodeOptions::default();
    assert_eq!(Keycode::from_char('\u{2019}', &o), vec![_QUOT]);
    assert_eq!(Keycode::from_char('\u{2014}', &o), vec![_MINS]);
    assert_eq!(Keycode::from_char('\u{201c}', &o), vec![_SFT, _QUOT]);
    assert_eq!(Keycode::from_char('\u{2026}', &o), vec![_DOT, _DOT, _DOT]);
    assert_eq!(Keycode::from_char('\u{e9}', &o), vec![]);
}

#[test]
fn explicit_inclusion_wins_and_digits_map() {
    let o = KeycodeOptions::default();
    assert_eq!(Keycode::from_char(' ', &o), vec![_SPC]);
    assert_eq!(Keycode::from_char('\t', &o), vec![_TAB]);
    assert_eq!(Keycode::from_char('0', &o), vec![_ZERO]);
    assert_eq!(Keycode::from_char('7', &o), vec![_7]);
    assert_eq!(Keycode::from_string("", &o), vec![]);
}

#[test]
fn short_names_and_lookup() {
    assert_eq!(_SPC.short_name(), "SPC");
    assert_eq!(_LS(3).short_name(), "LS");
    assert_eq!(Keycode::from_name("_ZERO"), Some(_ZERO));
    assert_eq!(Keycode::from_name("A"), None);
    assert_eq!(Keycode::from_name("_NOPE"), None);
    assert_eq!(_DQUO.to_char(), Some('"'));
    assert_eq!(_SFT.to_char(), None);
}
