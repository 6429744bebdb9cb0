use alc::error::AlcError;
use alc::key::Finger::{Thumb, Index, Middle, Ring, Pinkie, Joint, PlaceholderFinger};
use alc::key::Hand::{Left, Right};
use alc::key::{KeycodeKey, PhalanxKey};
use alc::keycode::Keycode::{_NO, _A, _B, _E, _SPC, _LS, _LST};

#[test]
fn keycode_key() {
    let k = KeycodeKey::default();
    assert_eq!(k.value(), _E);
    assert_eq!(k.value, _E);
    assert_eq!(k.is_moveable, true);
    assert_eq!(k.is_symmetric, false);

    let b = KeycodeKey::default_from_keycode(_B);
    assert_eq!(b.value, _B);
    assert_eq!(b.is_moveable, true);
    assert_eq!(b.is_symmetric, false);
}

#[test]
fn test_finger_comp() {
    assert!(Thumb == Thumb);
    assert!(Thumb > Index);
    assert!(Thumb > Middle);
    assert!(Thumb > Ring);
    assert!(Thumb > Pinkie);

    assert!(Index == Index);
    assert!(Index > Middle);
    assert!(Index > Ring);
    assert!(Index > Pinkie);

    assert!(Middle == Middle);
    assert!(Middle > Ring);
    assert!(Middle > Pinkie);

    assert!(Ring == Ring);
    assert!(Ring > Pinkie);

    assert!(Pinkie == Pinkie);
    assert!(Pinkie < Ring);
    assert!(Pinkie < Middle);
    assert!(Pinkie < Index);
    assert!(Pinkie < Thumb);

    assert!(!(Thumb > PlaceholderFinger));
    assert!(!(Thumb > Joint));
    assert!(!(Thumb < Joint));
}

#[test]
fn joint_and_placeholder_order() {
    assert_eq!(Joint.partial_cmp(&Joint), Some(std::cmp::Ordering::Equal));
    assert_eq!(PlaceholderFinger.partial_cmp(&PlaceholderFinger), None);
    assert_eq!(Index.partial_cmp(&Joint), None);
}

#[test]
fn cell_tokens() {
    let k = KeycodeKey::try_from_str("A_10").unwrap();
    assert_eq!(k, KeycodeKey { value: _A, is_moveable: true, is_symmetric: false });
    let k = KeycodeKey::try_from_str("__01").unwrap();
    assert_eq!(k, KeycodeKey { value: _NO, is_moveable: false, is_symmetric: true });
    let k = KeycodeKey::try_from_str("LS1_10").unwrap();
    assert_eq!(k.value, _LS(1));
    let k = KeycodeKey::try_from_str("LST2_1_00").unwrap();
    assert_eq!(k, KeycodeKey { value: _LST(2, 1), is_moveable: false, is_symmetric: false });
    let k = KeycodeKey::try_from_str("SPC_11").unwrap();
    assert_eq!(k, KeycodeKey { value: _SPC, is_moveable: true, is_symmetric: true });
}

#[test]
fn bad_cell_tokens() {
    for bad in ["LS1_11", "LST1_0_01", "A_1", "A", "QQ_10", "A_1x", ""] {
        match KeycodeKey::try_from_str(bad) {
            Err(AlcError::InvalidKeycodeKeyFromString(s, _)) => assert_eq!(s, bad),
            other => panic!("{} gave {:?}", bad, other),
        }
    }
}

#[test]
fn phalanx_tokens() {
    let t: Vec<char> = "left:middle".chars().collect();
    assert_eq!(PhalanxKey::from_chars(&t).unwrap(), PhalanxKey::new(Left, Middle));
    let t: Vec<char> = "R:J".chars().collect();
    assert_eq!(PhalanxKey::from_chars(&t).unwrap(), PhalanxKey::new(Right, Joint));
    let t: Vec<char> = "Right:Thumb".chars().collect();
    assert_eq!(PhalanxKey::from_chars(&t).unwrap(), PhalanxKey::new(Right, Thumb));
    let t: Vec<char> = "L".chars().collect();
    assert_eq!(PhalanxKey::from_chars(&t), Err(AlcError::InvalidPhalanxError(String::from("L"))));
    let t: Vec<char> = "X:I".chars().collect();
    assert_eq!(PhalanxKey::from_chars(&t), Err(AlcError::InvalidPhalanxError(String::from("X:I"))));
    assert_eq!(PhalanxKey::default(), PhalanxKey::new(Left, Index));
}
