use vstd::prelude::*;

use crate::keycode::Keycode;
use crate::ngram::Ngram;
use crate::position::LayoutPosition;

verus! {

/// Errors of parsing, of layout checks and of scoring.
#[derive(Debug, PartialEq, Clone)]
pub enum AlcError {
    InvalidKeycodeKeyFromString(String, String),
    InvalidPhalanxError(String),
    NgramMatchError(usize, usize),
    RowMismatchError(usize, usize),
    ColMismatchError(usize, usize, String),
    FromStringHeaderError(String),
    LayerAccessError(usize),
    LayoutLayerSwitchError(Vec<(LayoutPosition, LayoutPosition)>),
    LayoutSymmetryError(Vec<(LayoutPosition, LayoutPosition)>),
    ExpectedDirectoryError(String),
    UntypeableNgramError(Ngram),
    DatasetWeightsMismatchError(usize, usize),
    SwapFallbackError(u32, String),
    IncorrectPathmapError(Keycode, LayoutPosition, Keycode),
    IncompletePathmapError(Keycode, LayoutPosition),
    UnsupportedSizeError(usize, usize, Vec<(usize, usize)>),
    GenericError(String),
}

} // verus!
