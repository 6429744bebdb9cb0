use alc::error::AlcError;
use alc::presets::{get_all_layout_size_presets, get_size_variant, LayoutSizePresets};

#[test]
fn sizes_and_variants() {
    assert_eq!(get_all_layout_size_presets().len(), 7);
    assert_eq!(get_size_variant((4, 10)), Ok(LayoutSizePresets::FourByTen));
    assert_eq!(get_size_variant((3, 3)), Err(AlcError::UnsupportedSizeError(3, 3, get_all_layout_size_presets())));
}
