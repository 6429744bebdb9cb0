use vstd::prelude::*;

use crate::error::AlcError;

verus! {

/// The layout sizes, rows by columns, that have preset layers.
#[derive(Debug, PartialOrd, Ord, PartialEq, Eq, Structural, Hash, Clone, Copy)]
pub enum LayoutSizePresets {
    TwoByFour,
    FiveBySix,
    FourByTen,
    FourByTwelve,
    FiveByTwelve,
    FiveByFifteen,
    SixByTwenty,
}

/// The size, rows by columns, of each preset in declaration order.
pub open spec fn spec_size_presets() -> Seq<(usize, usize)> {
    seq![(2, 4), (5, 6), (4, 10), (4, 12), (5, 12), (5, 15), (6, 20)]
}

pub open spec fn spec_size_of(p: LayoutSizePresets) -> (usize, usize) {
    match p {
        LayoutSizePresets::TwoByFour => (2, 4),
        LayoutSizePresets::FiveBySix => (5, 6),
        LayoutSizePresets::FourByTen => (4, 10),
        LayoutSizePresets::FourByTwelve => (4, 12),
        LayoutSizePresets::FiveByTwelve => (5, 12),
        LayoutSizePresets::FiveByFifteen => (5, 15),
        LayoutSizePresets::SixByTwenty => (6, 20),
    }
}

/// Every preset size, in declaration order.
pub fn get_all_layout_size_presets() -> (r: Vec<(usize, usize)>)
    ensures
        r@ == spec_size_presets(),
{
    let r = vec![(2, 4), (5, 6), (4, 10), (4, 12), (5, 12), (5, 15), (6, 20)];
    assert(r@ =~= spec_size_presets());
    r
}

/// The preset of size `s`, or `UnsupportedSizeError` with every supported
/// size.
pub fn get_size_variant(s: (usize, usize)) -> (r: Result<LayoutSizePresets, AlcError>)
    ensures
        r.is_ok() <==> spec_size_presets().contains(s),
        r matches Ok(p) ==> spec_size_of(p) == s,
        r matches Err(e) ==> (e matches AlcError::UnsupportedSizeError(a, b, v) && a == s.0 && b == s.1
            && v@ == spec_size_presets()),
{
    let o = match s {
        (2, 4) => LayoutSizePresets::TwoByFour,
        (5, 6) => LayoutSizePresets::FiveBySix,
        (4, 10) => LayoutSizePresets::FourByTen,
        (4, 12) => LayoutSizePresets::FourByTwelve,
        (5, 12) => LayoutSizePresets::FiveByTwelve,
        (5, 15) => LayoutSizePresets::FiveByFifteen,
        (6, 20) => LayoutSizePresets::SixByTwenty,
        _ => {
            assert(!spec_size_presets().contains(s)) by {
                if spec_size_presets().contains(s) {
                    let i = choose|i: int| 0 <= i < 7 && spec_size_presets()[i] == s;
                }
            }
            return Err(AlcError::UnsupportedSizeError(s.0, s.1, get_all_layout_size_presets()));
        },
    };
    assert(spec_size_presets().contains(s)) by {
        let i = choose|i: int| 0 <= i < 7 && spec_size_presets()[i] == spec_size_of(o);
        assert(spec_size_presets()[0] == (2usize, 4usize));
        assert(spec_size_presets()[1] == (5usize, 6usize));
        assert(spec_size_presets()[2] == (4usize, 10usize));
        assert(spec_size_presets()[3] == (4usize, 12usize));
        assert(spec_size_presets()[4] == (5usize, 12usize));
        assert(spec_size_presets()[5] == (5usize, 15usize));
        assert(spec_size_presets()[6] == (6usize, 20usize));
    }
    Ok(o)
}

} // verus!
