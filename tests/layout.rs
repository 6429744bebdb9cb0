use alc::error::AlcError;
use alc::key::KeycodeKey;
use alc::keycode::Keycode::{self, _NO, _A, _B, _C, _D, _E, _F, _G, _H, _Z, _LS, _LST};
use alc::layout::Layout;
use alc::ngram::Ngram;
use alc::position::{LayoutPosition, LayoutPositionSequence};
use rand::SeedableRng;
use rand_chacha::ChaCha8Rng;

fn at<const R: usize, const C: usize>(l: &Layout<R, C>, a: usize, r: usize, c: usize) -> Keycode {
    l.get(LayoutPosition::new(a, r, c)).value()
}

#[test]
fn test() {
    let mut rng = ChaCha8Rng::seed_from_u64(1);
    let mut layout = Layout::<2, 3>::init_blank(5);
    let p = LayoutPosition::new(0, 1, 2);
    let mut k = layout.get(p);
    k.set_value(_D);
    k.set_is_moveable(false);
    layout.set_cell(p, k);
    layout.randomize(&mut rng, &vec![_A, _E]).unwrap();
    let expected_key = KeycodeKey::try_from_str("D_00").unwrap();
    assert_eq!(layout.get(p), expected_key);

    let layout_string = "
			___Layer 0___
					0       1       2 
			0| LS1_10  LS2_10  LS3_10 
			1| LS4_10    E_10    D_00 
			
			___Layer 1___
					0       1       2 
			0|   __10    A_10    A_10 
			1|   E_10    A_10    E_10 
			
			___Layer 2___
					0       1       2 
			0|   __10    __10    __10 
			1|   __10    __10    __10 
			
			___Layer 3___
					0       1       2 
			0|   __10    __10    __10 
			1|   __10    __10    __10 
			
			___Layer 4___
					0       1       2 
			0|   __10    __10    __10 
			1|   __10    __10    __10 
			
			";
    let layout_from_string = Layout::<2, 3>::try_from_str(layout_string).unwrap();
    assert_eq!(layout_from_string, layout);
}

#[test]
fn test_incorrect_ls() {
    let test_str = "
		___Layer 0___
		A_10 B_10 LS1_10
		___Layer 1___
		C_10 LS2_10 LST1_0_10 
		___Layer 2___
		LST2_1_10 E_10 F_10
		";
    let test_layout = Layout::<1, 3>::try_from_str(test_str);
    match test_layout {
        Ok(_v) => (),
        Err(e) => assert_eq!(e, AlcError::LayoutLayerSwitchError(vec![(LayoutPosition::new(1, 0, 1), LayoutPosition::new(2, 0, 1))])),
    };
}

#[test]
fn test_incorrect_symm() {
    let test_str = "
		___Layer 0___
		A_11 B_10 C_10
		";
    let test_layout = Layout::<1, 3>::try_from_str(test_str);
    match test_layout {
        Ok(_v) => panic!("accepted a broken symmetric pair"),
        Err(e) => assert_eq!(e, AlcError::LayoutSymmetryError(vec![(LayoutPosition::from_tuple((0, 0, 0)), LayoutPosition::from_tuple((0, 0, 2)))])),
    };
}

#[test]
fn test_keycode_path_map() {
    let layout = Layout::<1, 4>::try_from_str("
			___Layer 0___
			LS1_10 B_10 C_10 LS1_10
			___Layer 1___
			LST1_0_10 LS2_10 H_10 LST1_0_10
			___Layer 2___
			A_10 LST2_1_10 H_10 C_10
		").unwrap();
    assert_eq!(layout.paths_to_keycode(_H).unwrap().len(), 4);
    assert_eq!(layout.paths_to_keycode(_A).unwrap().len(), 2);
    assert!(layout.verify_pathmap_correctness().unwrap());
}

#[test]
fn test_pathmap_correctness() {
    let mut layout = Layout::<3, 4>::try_from_str("
			___Layer 0___
			LS1_10 A_10 B_10 C_10
			E_10 Z_10 H_10 C_10
			M_10 E_10 B_10 D_10
			___Layer 1___
			__10 __10 J_10 L_00
			SFT_11 K_10 X_10 SFT_11
			M_10 E_10 B_10 D_10
			M_10 E_10 B_10 D_10
		").unwrap();
    assert!(layout.verify_pathmap_correctness().unwrap());
    let p = LayoutPosition::new(1, 2, 1);
    let mut k = layout.get(p);
    k.set_value(_A);
    layout.set_cell(p, k);
    match layout.verify_pathmap_correctness() {
        Ok(_v) => panic!("x"),
        Err(e) => assert_eq!(e, AlcError::IncorrectPathmapError(_E, LayoutPosition::new(1, 2, 1), _A)),
    }
    layout.generate_pathmap().unwrap();
    assert!(layout.verify_pathmap_correctness().unwrap());
}

#[test]
fn test_swap() -> Result<(), AlcError> {
    let mut layout = Layout::<1, 4>::try_from_str("
			___Layer 0___
			A_10 B_10 C_10 LS1_10
			___Layer 1___
			D_10 E_10 H_10 LST1_0_10
		").unwrap();
    layout.swap(LayoutPosition::new(0, 0, 0), LayoutPosition::new(0, 0, 2))?;
    assert_eq!(at(&layout, 0, 0, 0), _C);
    assert_eq!(at(&layout, 0, 0, 2), _A);

    layout.swap(LayoutPosition::new(0, 0, 1), LayoutPosition::new(1, 0, 2))?;
    assert_eq!(at(&layout, 0, 0, 1), _H);
    assert_eq!(at(&layout, 1, 0, 2), _B);

    layout.swap(LayoutPosition::new(0, 0, 3), LayoutPosition::new(0, 0, 2))?;
    assert_eq!(at(&layout, 0, 0, 3), _A);
    assert_eq!(at(&layout, 0, 0, 2), _LS(1));
    assert_eq!(at(&layout, 1, 0, 3), _B);
    assert_eq!(at(&layout, 1, 0, 2), _LST(1, 0));

    let mut layout = Layout::<1, 4>::try_from_str("
			___Layer 0___
			A_10 B_11 C_11 LS1_10
			___Layer 1___
			D_10 E_10 H_10 LST1_0_10
		").unwrap();
    layout.swap(LayoutPosition::new(0, 0, 1), LayoutPosition::new(0, 0, 2))?;
    assert_eq!(at(&layout, 0, 0, 1), _C);
    assert_eq!(at(&layout, 0, 0, 2), _B);

    layout.swap(LayoutPosition::new(0, 0, 1), LayoutPosition::new(1, 0, 2))?;
    assert_eq!(at(&layout, 0, 0, 1), _H);
    assert_eq!(at(&layout, 0, 0, 2), _E);
    assert_eq!(at(&layout, 1, 0, 1), _B);
    assert_eq!(at(&layout, 1, 0, 2), _C);
    Ok(())
}

#[test]
fn test_replace() -> Result<(), AlcError> {
    let mut layout = Layout::<1, 4>::try_from_str("
			___Layer 0___
			A_10 B_11 C_11 LS1_10
			___Layer 1___
			D_10 E_10 E_10 LST1_0_10
		").unwrap();
    layout.replace(LayoutPosition::new(1, 0, 1), _C)?;
    assert_eq!(at(&layout, 1, 0, 1), _C);
    Ok(())
}

#[test]
fn test_ngram_to_sequences() {
    let layout = Layout::<1, 4>::try_from_str("
			___Layer 0___
			A_10 E_11 C_11 LS1_10
			___Layer 1___
			D_10 E_10 A_10 LST1_0_10
		").unwrap();
    let seqs = layout.ngram_to_sequences(&Ngram::new(vec![_A, _E])).unwrap();
    assert_eq!(seqs.len(), 4);
    let seq1 = LayoutPositionSequence::from_tuples(vec![(0, 0, 0), (0, 0, 1)]);
    assert!(seqs.contains(&seq1));
    let seq2 = LayoutPositionSequence::from_tuples(vec![(0, 0, 3), (1, 0, 2), (0, 0, 1)]);
    assert!(seqs.contains(&seq2));
    let seq3 = LayoutPositionSequence::from_tuples(vec![(0, 0, 0), (0, 0, 3), (1, 0, 1)]);
    assert!(seqs.contains(&seq3));
    let seq4 = LayoutPositionSequence::from_tuples(vec![(0, 0, 3), (1, 0, 2), (0, 0, 3), (1, 0, 1)]);
    assert!(seqs.contains(&seq4));
    let seqs2 = layout.ngram_to_sequences(&Ngram::new(vec![_A, _E, _A, _E])).unwrap();
    assert_eq!(seqs2.len(), 16);

    let layout2 = Layout::<1, 4>::try_from_str("
			___Layer 0___
			A_10 B_11 C_11 LS1_10
			___Layer 1___
			D_10 E_10 A_10 LST1_0_10
		").unwrap();
    let seqs2 = layout2.ngram_to_sequences(&Ngram::new(vec![_A, _B, _C, _D, _E])).unwrap();
    let seq2_1 = LayoutPositionSequence::from_tuples(vec![(0, 0, 0), (0, 0, 1), (0, 0, 2), (0, 0, 3), (1, 0, 0), (0, 0, 3), (1, 0, 1)]);
    assert!(seqs2.contains(&seq2_1));
    let seq2_2 = LayoutPositionSequence::from_tuples(vec![(0, 0, 3), (1, 0, 2), (0, 0, 1), (0, 0, 2), (0, 0, 3), (1, 0, 0), (0, 0, 3), (1, 0, 1)]);
    assert!(seqs2.contains(&seq2_2));
}

#[test]
fn test_randomization() {
    let mut rng = ChaCha8Rng::seed_from_u64(1);
    let mut initial_layout = Layout::<4, 12>::init_blank(3);
    initial_layout.randomize(&mut rng, &vec![_F, _G, _A, _C, _B, _D, _E]).unwrap();
    assert!(initial_layout.verify_pathmap_correctness().unwrap());
    let (v1, v2) = initial_layout.verify_layout_correctness();
    assert!(v1.is_empty() && v2.is_empty());
}

#[test]
fn untypeable_ngram_gives_none() {
    let layout = Layout::<1, 2>::try_from_str("A_10 B_10").unwrap();
    assert!(layout.ngram_to_sequences(&Ngram::new(vec![_A, _Z])).is_none());
    assert_eq!(layout.ngram_to_sequences(&Ngram::new(vec![])).unwrap().len(), 0);
}

#[test]
fn blank_layout_has_layer_switches() {
    let layout = Layout::<2, 3>::init_blank(3);
    assert_eq!(layout.len(), 3);
    assert_eq!(at(&layout, 0, 0, 0), _LS(1));
    assert_eq!(at(&layout, 0, 0, 1), _LS(2));
    assert_eq!(at(&layout, 1, 0, 0), _LST(1, 0));
    assert_eq!(at(&layout, 2, 0, 1), _LST(2, 0));
    assert_eq!(at(&layout, 2, 0, 0), _NO);
    assert_eq!(layout.paths_to_keycode(_LS(2)).unwrap().len(), 1);
    let (v1, v2) = layout.verify_layout_correctness();
    assert!(v1.is_empty() && v2.is_empty());
}

#[test]
fn unreachable_layer_is_an_error() {
    let r = Layout::<1, 2>::try_from_str("
        ___Layer 0___
        A_10 B_10
        ___Layer 1___
        C_10 __10
    ");
    assert_eq!(r.err(), Some(AlcError::LayerAccessError(1)));
}

#[test]
fn swap_twice_restores_the_layout() {
    let mut layout = Layout::<1, 4>::try_from_str("
			___Layer 0___
			A_10 B_11 C_11 LS1_10
			___Layer 1___
			D_10 E_10 H_10 LST1_0_10
		").unwrap();
    let before = layout.duplicate();
    for (p1, p2) in [((0, 0, 0), (1, 0, 2)), ((0, 0, 1), (0, 0, 2)), ((1, 0, 0), (0, 0, 0))] {
        let p1 = LayoutPosition::from_tuple(p1);
        let p2 = LayoutPosition::from_tuple(p2);
        assert!(layout.swap(p1, p2).unwrap());
        let (v1, v2) = layout.verify_layout_correctness();
        assert!(v1.is_empty() && v2.is_empty());
        assert!(layout.verify_pathmap_correctness().unwrap());
        assert!(layout.swap(p1, p2).unwrap());
        assert_eq!(layout, before);
    }
}

#[test]
fn layer_without_switch_is_unreachable_and_blocked_swaps_do_nothing() {
    let unreachable = Layout::<1, 3>::try_from_str("
			___Layer 0___
			A_11 B_10 C_11
			___Layer 1___
			D_10 E_10 F_10
		");
    assert_eq!(unreachable.err(), Some(AlcError::LayerAccessError(1)));
    let mut layout = Layout::<1, 3>::try_from_str("A_11 B_11 C_11").unwrap();
    let before = layout.duplicate();
    // B is in the centre column, so its mirror has nowhere to go
    assert_eq!(layout.swap(LayoutPosition::new(0, 0, 0), LayoutPosition::new(0, 0, 1)), Ok(false));
    assert_eq!(layout, before);
    assert_eq!(layout.swap(LayoutPosition::new(0, 0, 0), LayoutPosition::new(0, 0, 0)), Ok(false));
}

#[test]
fn pruning_keeps_visited_and_locked_cells() {
    let mut layout = Layout::<1, 4>::try_from_str("A_10 B_00 C_00 D_10").unwrap();
    layout.remove_unused_keys(&vec![LayoutPosition::new(0, 0, 3)]);
    assert_eq!(at(&layout, 0, 0, 0), _NO);
    assert_eq!(at(&layout, 0, 0, 1), _B);
    assert_eq!(at(&layout, 0, 0, 2), _C);
    assert_eq!(at(&layout, 0, 0, 3), _D);
}

#[test]
fn random_mutations_meet_their_preconditions() {
    let mut rng = ChaCha8Rng::seed_from_u64(7);
    let mut layout = Layout::<2, 4>::try_from_str("
        ___Layer 0___
        LS1_10 H_10 E_10 L_10
        L_10 O_10 T_10 H_10
        ___Layer 1___
        __00 E_11 R_11 E_10
        __10 __10 __10 __10
    ").unwrap();
    for _ in 0..50 {
        if let Some((p1, p2)) = layout.generate_random_valid_swap(&mut rng) {
            assert!(p1 != p2);
            assert_eq!(layout.get(p1).is_symmetric, layout.get(p2).is_symmetric);
            layout.swap(p1, p2).unwrap();
        }
        if let Some(p) = layout.generate_valid_replace_position(&mut rng) {
            layout.replace(p, _Z).unwrap();
        }
        assert!(layout.verify_pathmap_correctness().unwrap());
        let (v1, v2) = layout.verify_layout_correctness();
        assert!(v1.is_empty() && v2.is_empty());
    }
}

#[test]
fn randomized_layout_prints_and_reads_back() {
    let mut rng = ChaCha8Rng::seed_from_u64(3);
    let mut layout = Layout::<2, 3>::init_blank(3);
    layout.randomize(&mut rng, &vec![_A, _B, _C, _D, _E, _F, _G, _H]).unwrap();
    let text = layout.to_binary_string();
    let back = Layout::<2, 3>::try_from_str(&text).unwrap();
    assert_eq!(back, layout);
}

#[test]
fn printed_cells_follow_the_grammar() {
    let layout = Layout::<1, 2>::try_from_str("A_10 SPC_00").unwrap();
    assert_eq!(layout.to_binary_string(), "___Layer 0___\n        0       1 \n0|   A_10  SPC_00 \n\n");
}
