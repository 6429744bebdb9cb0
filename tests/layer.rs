use alc::error::AlcError;
use alc::key::Finger::{Index, Middle, Ring, Joint};
use alc::key::Hand::{Left, Right};
use alc::key::{KeycodeKey, PhalanxKey};
use alc::keycode::Keycode::{_NO, _A, _B, _D, _E, _H, _LS};
use alc::layer::{cols_from_string, rows_from_string, Layer};
use alc::position::LayoutPosition;

fn chars(s: &str) -> Vec<char> {
    s.chars().collect()
}

#[test]
fn test_init_random() {
    let random_layer = Layer::<2, 3, KeycodeKey>::init_blank();
    assert_eq!(random_layer.get(0, 0).value(), _NO);
}

#[test]
fn test_symmetry() {
    let layer = Layer::<4, 6, KeycodeKey>::init_blank();
    let query_layout_pos = LayoutPosition { layer_index: 0, row_index: 2, col_index: 5 };
    let expected_layout_pos = LayoutPosition { layer_index: 0, row_index: 2, col_index: 0 };
    assert_eq!(layer.symmetric_position(query_layout_pos), expected_layout_pos.clone());
    assert_eq!(layer.symmetric_position(expected_layout_pos), query_layout_pos.clone());
}

#[test]
fn test_randomize() {
    let mut layer = Layer::<3, 2, KeycodeKey>::init_blank();
    let mut k = layer.get(0, 0);
    k.set_is_symmetric(true);
    layer.set(0, 0, k);
    let mut k = layer.get(0, 1);
    k.set_is_symmetric(true);
    layer.set(0, 1, k);
    let mut k = layer.get(1, 1);
    k.set_is_moveable(false);
    layer.set(1, 1, k);
    let mut k = layer.get(2, 0);
    k.set_value(_LS(1));
    layer.set(2, 0, k);
    layer.randomize(&vec![_E, _E, _E], &vec![_E, _E, _E], &vec![]);
    assert_eq!(layer.get(0, 0).value(), _NO);
    assert_eq!(layer.get(0, 1).value(), _NO);
    assert_eq!(layer.get(1, 1).value(), _NO);
    assert_eq!(layer.get(1, 0).value(), _E);
    assert_eq!(layer.get(2, 0).value(), _LS(1));

    let layer_string = "
			A_11 B_10 C_11
			D_00 __10 LS1_10
		";
    let mut layer = Layer::<2, 3, KeycodeKey>::try_from_str(layer_string).unwrap();
    layer.randomize(&vec![_H], &vec![_H], &vec![]);
    assert_eq!(layer.get(0, 1).value(), _B);
    assert_eq!(layer.get(1, 1).value(), _H);
}

#[test]
fn test_from_string() {
    let layer_string = "
			A_11 B_10 C_11
			D_00 __01 LS1_10
		";
    let layer = Layer::<2, 3, KeycodeKey>::try_from_str(layer_string).unwrap();
    assert_eq!(layer.get(1, 2), KeycodeKey::default_from_keycode(_LS(1)));

    let layer_string_with_indexes = "
			0       1       2 
			0| LS1_10  LS2_10  LS3_10 
			1| LS4_10    E_10    D_00 
		";
    let layer_from_string_with_indexes = Layer::<2, 3, KeycodeKey>::try_from_str(layer_string_with_indexes).unwrap();
    assert_eq!(layer_from_string_with_indexes.get(1, 2).value(), _D);
}

#[test]
fn test_phalanx_from_string() {
    let test_str = "
			left:middle left:index right:index right:ring right:joint
		";
    let phalanx_layer = Layer::<1, 5, PhalanxKey>::try_from_str(test_str).unwrap();
    assert_eq!(phalanx_layer.get(0, 0), PhalanxKey::new(Left, Middle));
    assert_eq!(phalanx_layer.get(0, 1), PhalanxKey::new(Left, Index));
    assert_eq!(phalanx_layer.get(0, 2), PhalanxKey::new(Right, Index));
    assert_eq!(phalanx_layer.get(0, 3), PhalanxKey::new(Right, Ring));
    assert_eq!(phalanx_layer.get(0, 4), PhalanxKey::new(Right, Joint));

    let test_str = "
			L:M  L:I  R:I  R:R R:J
		";
    let phalanx_layer = Layer::<1, 5, PhalanxKey>::try_from_str(test_str).unwrap();
    assert_eq!(phalanx_layer.get(0, 0), PhalanxKey::new(Left, Middle));
    assert_eq!(phalanx_layer.get(0, 1), PhalanxKey::new(Left, Index));
    assert_eq!(phalanx_layer.get(0, 2), PhalanxKey::new(Right, Index));
    assert_eq!(phalanx_layer.get(0, 3), PhalanxKey::new(Right, Ring));
    assert_eq!(phalanx_layer.get(0, 4), PhalanxKey::new(Right, Joint));
}

#[test]
fn row_and_column_errors() {
    assert_eq!(rows_from_string(&chars("A_10\n\nB_10\nC_10\nD_10"), 2), Err(AlcError::RowMismatchError(2, 4)));
    match rows_from_string(&chars("0 x\nA_10\nB_10"), 2) {
        Err(AlcError::FromStringHeaderError(s)) => assert_eq!(s, "0 x"),
        other => panic!("{:?}", other),
    }
    let rows = rows_from_string(&chars(" 0 1\n0| A_10 B_10\n  \n1| C_10 D_10\n"), 2).unwrap();
    assert_eq!(rows.len(), 2);
    assert_eq!(cols_from_string(&rows[1], 2).unwrap(), vec![chars("C_10"), chars("D_10")]);
    match cols_from_string(&chars("A_10 B_10 C_10"), 2) {
        Err(AlcError::ColMismatchError(2, 3, s)) => assert_eq!(s, "A_10 B_10 C_10"),
        other => panic!("{:?}", other),
    }
    match Layer::<1, 2, KeycodeKey>::try_from_str("A_10 LS1_11") {
        Err(AlcError::InvalidKeycodeKeyFromString(s, _)) => assert_eq!(s, "LS1_11"),
        other => panic!("{:?}", other.is_ok()),
    }
}

#[test]
fn keycode_set_of_layer() {
    let layer = Layer::<2, 2, KeycodeKey>::try_from_str("A_10 B_10\nA_10 __10").unwrap();
    let mut s = layer.get_keycode_set();
    s.sort();
    assert_eq!(s, vec![_NO, _A, _B]);
    assert_eq!(layer.get_row_major(2).unwrap().value, _A);
    assert_eq!(layer.get_row_major(4), None);
}

#[test]
fn test_keycode_key_layer() {
    let l = LayoutPosition::new(0, 0, 1);
    let layer = Layer::<2, 3, KeycodeKey>::try_from_str("A_10 B_10 C_10\nE_10 D_10 A_10").unwrap();
    assert_eq!(layer.get(l.row_index, l.col_index), KeycodeKey::default_from_keycode(_B));
}
