use vstd::prelude::*;
use vstd::string::*;

verus! {

/// A key action: a terminal symbol, a layer switch `_LS(t)` to layer `t`, the
/// marker `_LST(t, s)` that sits in layer `t` under the switch coming from
/// layer `s`, the blank `_NO`, or a placeholder. The derived order is the
/// declaration order and gives deterministic output.
#[allow(non_camel_case_types)]
#[derive(Debug, PartialOrd, Ord, PartialEq, Eq, Hash, Clone, Copy, Structural)]
pub enum Keycode {
    _NO,
    _A,
    _B,
    _C,
    _D,
    _E,
    _F,
    _G,
    _H,
    _I,
    _J,
    _K,
    _L,
    _M,
    _N,
    _O,
    _P,
    _Q,
    _R,
    _S,
    _T,
    _U,
    _V,
    _W,
    _X,
    _Y,
    _Z,
    _1,
    _2,
    _3,
    _4,
    _5,
    _6,
    _7,
    _8,
    _9,
    _ZERO,
    _SPC,
    _BSPC,
    _SFT,
    _CTRL,
    _ALT,
    _GUI,
    _ENT,
    _COMM,
    _DOT,
    _EXLM,
    _AT,
    _HASH,
    _DLR,
    _PERC,
    _CIRC,
    _AMPR,
    _ASTR,
    _LPRN,
    _RPRN,
    _MINS,
    _UNDS,
    _GRV,
    _TILD,
    _QUOT,
    _DQUO,
    _SCLN,
    _COLN,
    _LT,
    _GT,
    _EQL,
    _PLUS,
    _SLSH,
    _QUES,
    _BSLS,
    _PIPE,
    _LCBR,
    _RCBR,
    _LBRC,
    _RBRC,
    _LS(usize),
    _LST(usize, usize),
    _UP,
    _RGHT,
    _DOWN,
    _LEFT,
    _PGUP,
    _END,
    _PGDN,
    _HOME,
    _PSCR,
    _DEL,
    _TAB,
    _PLACEHOLDER,
}

impl Keycode {
    /// The character that this keycode types on its own, if it is a symbol
    /// that may be listed among the explicit inclusions.
    pub open spec fn spec_char(self) -> Option<char> {
        match self {
            Keycode::_SPC => Some(' '),
            Keycode::_ENT => Some('\n'),
            Keycode::_TAB => Some('\t'),
            Keycode::_EXLM => Some('!'),
            Keycode::_AT => Some('@'),
            Keycode::_HASH => Some('#'),
            Keycode::_DLR => Some('$'),
            Keycode::_PERC => Some('%'),
            Keycode::_CIRC => Some('^'),
            Keycode::_AMPR => Some('&'),
            Keycode::_ASTR => Some('*'),
            Keycode::_LPRN => Some('('),
            Keycode::_RPRN => Some(')'),
            Keycode::_COMM => Some(','),
            Keycode::_DOT => Some('.'),
            Keycode::_MINS => Some('-'),
            Keycode::_UNDS => Some('_'),
            Keycode::_GRV => Some('`'),
            Keycode::_TILD => Some('~'),
            Keycode::_QUOT => Some('\''),
            Keycode::_DQUO => Some('"'),
            Keycode::_SCLN => Some(';'),
            Keycode::_COLN => Some(':'),
            Keycode::_LT => Some('<'),
            Keycode::_GT => Some('>'),
            Keycode::_EQL => Some('='),
            Keycode::_PLUS => Some('+'),
            Keycode::_SLSH => Some('/'),
            Keycode::_QUES => Some('?'),
            Keycode::_BSLS => Some('\\'),
            Keycode::_PIPE => Some('|'),
            Keycode::_LCBR => Some('{'),
            Keycode::_RCBR => Some('}'),
            Keycode::_LBRC => Some('['),
            Keycode::_RBRC => Some(']'),
            _ => None,
        }
    }

    /// The short name used in layout strings (`A`, `SPC`, `LS`).
    pub open spec fn spec_short_name(self) -> Seq<char> {
        match self {
            Keycode::_NO => "NO"@,
            Keycode::_A => "A"@,
            Keycode::_B => "B"@,
            Keycode::_C => "C"@,
            Keycode::_D => "D"@,
            Keycode::_E => "E"@,
            Keycode::_F => "F"@,
            Keycode::_G => "G"@,
            Keycode::_H => "H"@,
            Keycode::_I => "I"@,
            Keycode::_J => "J"@,
            Keycode::_K => "K"@,
            Keycode::_L => "L"@,
            Keycode::_M => "M"@,
            Keycode::_N => "N"@,
            Keycode::_O => "O"@,
            Keycode::_P => "P"@,
            Keycode::_Q => "Q"@,
            Keycode::_R => "R"@,
            Keycode::_S => "S"@,
            Keycode::_T => "T"@,
            Keycode::_U => "U"@,
            Keycode::_V => "V"@,
            Keycode::_W => "W"@,
            Keycode::_X => "X"@,
            Keycode::_Y => "Y"@,
            Keycode::_Z => "Z"@,
            Keycode::_1 => "1"@,
            Keycode::_2 => "2"@,
            Keycode::_3 => "3"@,
            Keycode::_4 => "4"@,
            Keycode::_5 => "5"@,
            Keycode::_6 => "6"@,
            Keycode::_7 => "7"@,
            Keycode::_8 => "8"@,
            Keycode::_9 => "9"@,
            Keycode::_ZERO => "ZERO"@,
            Keycode::_SPC => "SPC"@,
            Keycode::_BSPC => "BSPC"@,
            Keycode::_SFT => "SFT"@,
            Keycode::_CTRL => "CTRL"@,
            Keycode::_ALT => "ALT"@,
            Keycode::_GUI => "GUI"@,
            Keycode::_ENT => "ENT"@,
            Keycode::_COMM => "COMM"@,
            Keycode::_DOT => "DOT"@,
            Keycode::_EXLM => "EXLM"@,
            Keycode::_AT => "AT"@,
            Keycode::_HASH => "HASH"@,
            Keycode::_DLR => "DLR"@,
            Keycode::_PERC => "PERC"@,
            Keycode::_CIRC => "CIRC"@,
            Keycode::_AMPR => "AMPR"@,
            Keycode::_ASTR => "ASTR"@,
            Keycode::_LPRN => "LPRN"@,
            Keycode::_RPRN => "RPRN"@,
            Keycode::_MINS => "MINS"@,
            Keycode::_UNDS => "UNDS"@,
            Keycode::_GRV => "GRV"@,
            Keycode::_TILD => "TILD"@,
            Keycode::_QUOT => "QUOT"@,
            Keycode::_DQUO => "DQUO"@,
            Keycode::_SCLN => "SCLN"@,
            Keycode::_COLN => "COLN"@,
            Keycode::_LT => "LT"@,
            Keycode::_GT => "GT"@,
            Keycode::_EQL => "EQL"@,
            Keycode::_PLUS => "PLUS"@,
            Keycode::_SLSH => "SLSH"@,
            Keycode::_QUES => "QUES"@,
            Keycode::_BSLS => "BSLS"@,
            Keycode::_PIPE => "PIPE"@,
            Keycode::_LCBR => "LCBR"@,
            Keycode::_RCBR => "RCBR"@,
            Keycode::_LBRC => "LBRC"@,
            Keycode::_RBRC => "RBRC"@,
            Keycode::_UP => "UP"@,
            Keycode::_RGHT => "RGHT"@,
            Keycode::_DOWN => "DOWN"@,
            Keycode::_LEFT => "LEFT"@,
            Keycode::_PGUP => "PGUP"@,
            Keycode::_END => "END"@,
            Keycode::_PGDN => "PGDN"@,
            Keycode::_HOME => "HOME"@,
            Keycode::_PSCR => "PSCR"@,
            Keycode::_DEL => "DEL"@,
            Keycode::_TAB => "TAB"@,
            Keycode::_PLACEHOLDER => "PLACEHOLDER"@,
            Keycode::_LS(_) => "LS"@,
            Keycode::_LST(_, _) => "LST"@,
        }
    }

    pub fn to_char(self) -> (r: Option<char>)
        ensures
            r == self.spec_char(),
    {
        match self {
            Keycode::_SPC => Some(' '),
            Keycode::_ENT => Some('\n'),
            Keycode::_TAB => Some('\t'),
            Keycode::_EXLM => Some('!'),
            Keycode::_AT => Some('@'),
            Keycode::_HASH => Some('#'),
            Keycode::_DLR => Some('$'),
            Keycode::_PERC => Some('%'),
            Keycode::_CIRC => Some('^'),
            Keycode::_AMPR => Some('&'),
            Keycode::_ASTR => Some('*'),
            Keycode::_LPRN => Some('('),
            Keycode::_RPRN => Some(')'),
            Keycode::_COMM => Some(','),
            Keycode::_DOT => Some('.'),
            Keycode::_MINS => Some('-'),
            Keycode::_UNDS => Some('_'),
            Keycode::_GRV => Some('`'),
            Keycode::_TILD => Some('~'),
            Keycode::_QUOT => Some('\''),
            Keycode::_DQUO => Some('"'),
            Keycode::_SCLN => Some(';'),
            Keycode::_COLN => Some(':'),
            Keycode::_LT => Some('<'),
            Keycode::_GT => Some('>'),
            Keycode::_EQL => Some('='),
            Keycode::_PLUS => Some('+'),
            Keycode::_SLSH => Some('/'),
            Keycode::_QUES => Some('?'),
            Keycode::_BSLS => Some('\\'),
            Keycode::_PIPE => Some('|'),
            Keycode::_LCBR => Some('{'),
            Keycode::_RCBR => Some('}'),
            Keycode::_LBRC => Some('['),
            Keycode::_RBRC => Some(']'),
            _ => None,
        }
    }

    /// The short name, without the leading underscore of the variant.
    pub fn short_name(self) -> (r: &'static str)
        ensures
            r@ == self.spec_short_name(),
    {
        match self {
            Keycode::_NO => "NO",
            Keycode::_A => "A",
            Keycode::_B => "B",
            Keycode::_C => "C",
            Keycode::_D => "D",
            Keycode::_E => "E",
            Keycode::_F => "F",
            Keycode::_G => "G",
            Keycode::_H => "H",
            Keycode::_I => "I",
            Keycode::_J => "J",
            Keycode::_K => "K",
            Keycode::_L => "L",
            Keycode::_M => "M",
            Keycode::_N => "N",
            Keycode::_O => "O",
            Keycode::_P => "P",
            Keycode::_Q => "Q",
            Keycode::_R => "R",
            Keycode::_S => "S",
            Keycode::_T => "T",
            Keycode::_U => "U",
            Keycode::_V => "V",
            Keycode::_W => "W",
            Keycode::_X => "X",
            Keycode::_Y => "Y",
            Keycode::_Z => "Z",
            Keycode::_1 => "1",
            Keycode::_2 => "2",
            Keycode::_3 => "3",
            Keycode::_4 => "4",
            Keycode::_5 => "5",
            Keycode::_6 => "6",
            Keycode::_7 => "7",
            Keycode::_8 => "8",
            Keycode::_9 => "9",
            Keycode::_ZERO => "ZERO",
            Keycode::_SPC => "SPC",
            Keycode::_BSPC => "BSPC",
            Keycode::_SFT => "SFT",
            Keycode::_CTRL => "CTRL",
            Keycode::_ALT => "ALT",
            Keycode::_GUI => "GUI",
            Keycode::_ENT => "ENT",
            Keycode::_COMM => "COMM",
            Keycode::_DOT => "DOT",
            Keycode::_EXLM => "EXLM",
            Keycode::_AT => "AT",
            Keycode::_HASH => "HASH",
            Keycode::_DLR => "DLR",
            Keycode::_PERC => "PERC",
            Keycode::_CIRC => "CIRC",
            Keycode::_AMPR => "AMPR",
            Keycode::_ASTR => "ASTR",
            Keycode::_LPRN => "LPRN",
            Keycode::_RPRN => "RPRN",
            Keycode::_MINS => "MINS",
            Keycode::_UNDS => "UNDS",
            Keycode::_GRV => "GRV",
            Keycode::_TILD => "TILD",
            Keycode::_QUOT => "QUOT",
            Keycode::_DQUO => "DQUO",
            Keycode::_SCLN => "SCLN",
            Keycode::_COLN => "COLN",
            Keycode::_LT => "LT",
            Keycode::_GT => "GT",
            Keycode::_EQL => "EQL",
            Keycode::_PLUS => "PLUS",
            Keycode::_SLSH => "SLSH",
            Keycode::_QUES => "QUES",
            Keycode::_BSLS => "BSLS",
            Keycode::_PIPE => "PIPE",
            Keycode::_LCBR => "LCBR",
            Keycode::_RCBR => "RCBR",
            Keycode::_LBRC => "LBRC",
            Keycode::_RBRC => "RBRC",
            Keycode::_UP => "UP",
            Keycode::_RGHT => "RGHT",
            Keycode::_DOWN => "DOWN",
            Keycode::_LEFT => "LEFT",
            Keycode::_PGUP => "PGUP",
            Keycode::_END => "END",
            Keycode::_PGDN => "PGDN",
            Keycode::_HOME => "HOME",
            Keycode::_PSCR => "PSCR",
            Keycode::_DEL => "DEL",
            Keycode::_TAB => "TAB",
            Keycode::_PLACEHOLDER => "PLACEHOLDER",
            Keycode::_LS(_) => "LS",
            Keycode::_LST(_, _) => "LST",
        }
    }
}

/// The letter keycode with index `i` in the alphabet (`0` is `_A`).
pub open spec fn spec_letter(i: u32) -> Keycode {
    match i {
        0 => Keycode::_A,
        1 => Keycode::_B,
        2 => Keycode::_C,
        3 => Keycode::_D,
        4 => Keycode::_E,
        5 => Keycode::_F,
        6 => Keycode::_G,
        7 => Keycode::_H,
        8 => Keycode::_I,
        9 => Keycode::_J,
        10 => Keycode::_K,
        11 => Keycode::_L,
        12 => Keycode::_M,
        13 => Keycode::_N,
        14 => Keycode::_O,
        15 => Keycode::_P,
        16 => Keycode::_Q,
        17 => Keycode::_R,
        18 => Keycode::_S,
        19 => Keycode::_T,
        20 => Keycode::_U,
        21 => Keycode::_V,
        22 => Keycode::_W,
        23 => Keycode::_X,
        24 => Keycode::_Y,
        25 => Keycode::_Z,
        _ => Keycode::_Z,
    }
}

/// The digit keycode for `d` (`0` is `_ZERO`).
pub open spec fn spec_digit(d: u32) -> Keycode {
    match d {
        1 => Keycode::_1,
        2 => Keycode::_2,
        3 => Keycode::_3,
        4 => Keycode::_4,
        5 => Keycode::_5,
        6 => Keycode::_6,
        7 => Keycode::_7,
        8 => Keycode::_8,
        9 => Keycode::_9,
        _ => Keycode::_ZERO,
    }
}

pub fn letter(i: u32) -> (k: Keycode)
    ensures
        k == spec_letter(i),
{
    match i {
        0 => Keycode::_A,
        1 => Keycode::_B,
        2 => Keycode::_C,
        3 => Keycode::_D,
        4 => Keycode::_E,
        5 => Keycode::_F,
        6 => Keycode::_G,
        7 => Keycode::_H,
        8 => Keycode::_I,
        9 => Keycode::_J,
        10 => Keycode::_K,
        11 => Keycode::_L,
        12 => Keycode::_M,
        13 => Keycode::_N,
        14 => Keycode::_O,
        15 => Keycode::_P,
        16 => Keycode::_Q,
        17 => Keycode::_R,
        18 => Keycode::_S,
        19 => Keycode::_T,
        20 => Keycode::_U,
        21 => Keycode::_V,
        22 => Keycode::_W,
        23 => Keycode::_X,
        24 => Keycode::_Y,
        25 => Keycode::_Z,
        _ => Keycode::_Z,
    }
}

pub fn digit(d: u32) -> (k: Keycode)
    ensures
        k == spec_digit(d),
{
    match d {
        1 => Keycode::_1,
        2 => Keycode::_2,
        3 => Keycode::_3,
        4 => Keycode::_4,
        5 => Keycode::_5,
        6 => Keycode::_6,
        7 => Keycode::_7,
        8 => Keycode::_8,
        9 => Keycode::_9,
        _ => Keycode::_ZERO,
    }
}

/// Every keycode without a parameter, in declaration order.
pub open spec fn spec_named_keycodes() -> Seq<Keycode> {
    seq![Keycode::_NO, Keycode::_A, Keycode::_B, Keycode::_C, Keycode::_D, Keycode::_E, Keycode::_F, Keycode::_G, Keycode::_H, Keycode::_I, Keycode::_J, Keycode::_K, Keycode::_L, Keycode::_M, Keycode::_N, Keycode::_O, Keycode::_P, Keycode::_Q, Keycode::_R, Keycode::_S, Keycode::_T, Keycode::_U, Keycode::_V, Keycode::_W, Keycode::_X, Keycode::_Y, Keycode::_Z, Keycode::_1, Keycode::_2, Keycode::_3, Keycode::_4, Keycode::_5, Keycode::_6, Keycode::_7, Keycode::_8, Keycode::_9, Keycode::_ZERO, Keycode::_SPC, Keycode::_BSPC, Keycode::_SFT, Keycode::_CTRL, Keycode::_ALT, Keycode::_GUI, Keycode::_ENT, Keycode::_COMM, Keycode::_DOT, Keycode::_EXLM, Keycode::_AT, Keycode::_HASH, Keycode::_DLR, Keycode::_PERC, Keycode::_CIRC, Keycode::_AMPR, Keycode::_ASTR, Keycode::_LPRN, Keycode::_RPRN, Keycode::_MINS, Keycode::_UNDS, Keycode::_GRV, Keycode::_TILD, Keycode::_QUOT, Keycode::_DQUO, Keycode::_SCLN, Keycode::_COLN, Keycode::_LT, Keycode::_GT, Keycode::_EQL, Keycode::_PLUS, Keycode::_SLSH, Keycode::_QUES, Keycode::_BSLS, Keycode::_PIPE, Keycode::_LCBR, Keycode::_RCBR, Keycode::_LBRC, Keycode::_RBRC, Keycode::_UP, Keycode::_RGHT, Keycode::_DOWN, Keycode::_LEFT, Keycode::_PGUP, Keycode::_END, Keycode::_PGDN, Keycode::_HOME, Keycode::_PSCR, Keycode::_DEL, Keycode::_TAB, Keycode::_PLACEHOLDER]
}

pub fn named_keycodes() -> (r: Vec<Keycode>)
    ensures
        r@ == spec_named_keycodes(),
{
    vec![Keycode::_NO, Keycode::_A, Keycode::_B, Keycode::_C, Keycode::_D, Keycode::_E, Keycode::_F, Keycode::_G, Keycode::_H, Keycode::_I, Keycode::_J, Keycode::_K, Keycode::_L, Keycode::_M, Keycode::_N, Keycode::_O, Keycode::_P, Keycode::_Q, Keycode::_R, Keycode::_S, Keycode::_T, Keycode::_U, Keycode::_V, Keycode::_W, Keycode::_X, Keycode::_Y, Keycode::_Z, Keycode::_1, Keycode::_2, Keycode::_3, Keycode::_4, Keycode::_5, Keycode::_6, Keycode::_7, Keycode::_8, Keycode::_9, Keycode::_ZERO, Keycode::_SPC, Keycode::_BSPC, Keycode::_SFT, Keycode::_CTRL, Keycode::_ALT, Keycode::_GUI, Keycode::_ENT, Keycode::_COMM, Keycode::_DOT, Keycode::_EXLM, Keycode::_AT, Keycode::_HASH, Keycode::_DLR, Keycode::_PERC, Keycode::_CIRC, Keycode::_AMPR, Keycode::_ASTR, Keycode::_LPRN, Keycode::_RPRN, Keycode::_MINS, Keycode::_UNDS, Keycode::_GRV, Keycode::_TILD, Keycode::_QUOT, Keycode::_DQUO, Keycode::_SCLN, Keycode::_COLN, Keycode::_LT, Keycode::_GT, Keycode::_EQL, Keycode::_PLUS, Keycode::_SLSH, Keycode::_QUES, Keycode::_BSLS, Keycode::_PIPE, Keycode::_LCBR, Keycode::_RCBR, Keycode::_LBRC, Keycode::_RBRC, Keycode::_UP, Keycode::_RGHT, Keycode::_DOWN, Keycode::_LEFT, Keycode::_PGUP, Keycode::_END, Keycode::_PGDN, Keycode::_HOME, Keycode::_PSCR, Keycode::_DEL, Keycode::_TAB, Keycode::_PLACEHOLDER]
}

/// Which keycodes the decoder and the default keycode set treat as their own.
#[derive(Debug, PartialEq, Clone)]
pub struct KeycodeOptions {
    pub include_alphas: bool,
    pub include_numbers: bool,
    pub include_number_symbols: bool,
    pub include_brackets: bool,
    pub include_misc_symbols: bool,
    pub include_misc_symbols_shifted: bool,
    pub explicit_inclusions: Vec<Keycode>,
}

impl Default for KeycodeOptions {
    fn default() -> (o: Self)
        ensures
            o.include_alphas,
            !o.include_numbers,
            !o.include_number_symbols,
            !o.include_brackets,
            o.include_misc_symbols,
            !o.include_misc_symbols_shifted,
            o.explicit_inclusions@ == seq![Keycode::_SPC, Keycode::_SFT, Keycode::_ENT, Keycode::_TAB],
    {
        KeycodeOptions {
            include_alphas: true,
            include_numbers: false,
            include_number_symbols: false,
            include_brackets: false,
            include_misc_symbols: true,
            include_misc_symbols_shifted: false,
            explicit_inclusions: vec![Keycode::_SPC, Keycode::_SFT, Keycode::_ENT, Keycode::_TAB],
        }
    }
}

pub open spec fn alpha_group() -> Seq<Keycode> {
    seq![
        Keycode::_A, Keycode::_B, Keycode::_C, Keycode::_D, Keycode::_E, Keycode::_F, Keycode::_G,
        Keycode::_H, Keycode::_I, Keycode::_J, Keycode::_K, Keycode::_L, Keycode::_M, Keycode::_N,
        Keycode::_O, Keycode::_P, Keycode::_Q, Keycode::_R, Keycode::_S, Keycode::_T, Keycode::_U,
        Keycode::_V, Keycode::_W, Keycode::_X, Keycode::_Y, Keycode::_Z, Keycode::_DOT, Keycode::_COMM,
    ]
}

pub open spec fn number_group() -> Seq<Keycode> {
    seq![
        Keycode::_1, Keycode::_2, Keycode::_3, Keycode::_4, Keycode::_5, Keycode::_6, Keycode::_7,
        Keycode::_8, Keycode::_9, Keycode::_ZERO,
    ]
}

pub open spec fn number_symbol_group() -> Seq<Keycode> {
    seq![
        Keycode::_EXLM, Keycode::_AT, Keycode::_HASH, Keycode::_DLR, Keycode::_PERC, Keycode::_CIRC,
        Keycode::_AMPR, Keycode::_ASTR, Keycode::_LPRN, Keycode::_RPRN,
    ]
}

pub open spec fn bracket_group() -> Seq<Keycode> {
    seq![
        Keycode::_LPRN, Keycode::_RPRN, Keycode::_LBRC, Keycode::_RBRC, Keycode::_LCBR, Keycode::_RCBR,
        Keycode::_LT, Keycode::_GT,
    ]
}

pub open spec fn misc_symbol_group() -> Seq<Keycode> {
    seq![
        Keycode::_MINS, Keycode::_EQL, Keycode::_BSLS, Keycode::_SCLN, Keycode::_QUOT, Keycode::_GRV,
        Keycode::_SLSH, Keycode::_LBRC, Keycode::_RBRC,
    ]
}

pub open spec fn misc_shifted_group() -> Seq<Keycode> {
    seq![
        Keycode::_UNDS, Keycode::_PLUS, Keycode::_PIPE, Keycode::_COLN, Keycode::_DQUO, Keycode::_TILD,
        Keycode::_QUES, Keycode::_LCBR, Keycode::_RCBR,
    ]
}

pub open spec fn group_if(on: bool, g: Seq<Keycode>) -> Set<Keycode> {
    if on {
        g.to_set()
    } else {
        Set::empty()
    }
}

/// The keycodes that the toggles of `o` select, with its explicit inclusions
/// other than `_NO`.
pub open spec fn spec_default_keycode_set(o: KeycodeOptions) -> Set<Keycode> {
    group_if(o.include_alphas, alpha_group())
        .union(group_if(o.include_numbers, number_group()))
        .union(group_if(o.include_number_symbols, number_symbol_group()))
        .union(group_if(o.include_brackets, bracket_group()))
        .union(group_if(o.include_misc_symbols, misc_symbol_group()))
        .union(group_if(o.include_misc_symbols_shifted, misc_shifted_group()))
        .union(o.explicit_inclusions@.to_set().remove(Keycode::_NO))
}

pub fn contains_keycode(v: &Vec<Keycode>, k: Keycode) -> (r: bool)
    ensures
        r == v@.contains(k),
{
    let mut i: usize = 0;
    while i < v.len()
        invariant
            i <= v.len(),
            forall|j: int| 0 <= j < i ==> v@[j] != k,
        decreases v.len() - i,
    {
        if v[i] == k {
            return true;
        }
        i = i + 1;
    }
    false
}

/// Appends the keycodes of `g` that `r` does not hold yet.
fn extend_unique(r: &mut Vec<Keycode>, g: &Vec<Keycode>)
    requires
        old(r)@.no_duplicates(),
    ensures
        final(r)@.no_duplicates(),
        final(r)@.to_set() == old(r)@.to_set().union(g@.to_set()),
{
    let ghost start = r@;
    let mut i: usize = 0;
    while i < g.len()
        invariant
            i <= g.len(),
            r@.no_duplicates(),
            r@.to_set() == start.to_set().union(g@.subrange(0, i as int).to_set()),
        decreases g.len() - i,
    {
        let k = g[i];
        let ghost before = r@;
        if !contains_keycode(r, k) {
            r.push(k);
            assert(r@.to_set() =~= before.to_set().insert(k)) by {
                assert forall|x: Keycode| r@.contains(x) <==> before.contains(x) || x == k by {
                    if r@.contains(x) {
                        let j = choose|j: int| 0 <= j < r@.len() && r@[j] == x;
                        if j < before.len() {
                            assert(before[j] == x);
                        }
                    }
                    if before.contains(x) {
                        let j = choose|j: int| 0 <= j < before.len() && before[j] == x;
                        assert(r@[j] == x);
                    }
                    if x == k {
                        assert(r@[before.len() as int] == x);
                    }
                }
            }
        }
        assert(g@.subrange(0, i + 1) =~= g@.subrange(0, i as int).push(k));
        assert(g@.subrange(0, i + 1).to_set() =~= g@.subrange(0, i as int).to_set().insert(k)) by {
            g@.subrange(0, i as int).lemma_push_to_set_commute(k);
        }
        i = i + 1;
    }
    assert(g@.subrange(0, g.len() as int) =~= g@);
    assert(r@.to_set() =~= start.to_set().union(g@.to_set()));
}

/// The keycodes that `options` selects, each once.
pub fn generate_default_keycode_set(options: &KeycodeOptions) -> (r: Vec<Keycode>)
    ensures
        r@.no_duplicates(),
        r@.to_set() == spec_default_keycode_set(*options),
{
    let mut r: Vec<Keycode> = Vec::new();
    let ghost empty = r@;
    assert(empty.to_set() =~= Set::empty());
    if options.include_alphas {
        let g = vec![
            Keycode::_A, Keycode::_B, Keycode::_C, Keycode::_D, Keycode::_E, Keycode::_F, Keycode::_G,
            Keycode::_H, Keycode::_I, Keycode::_J, Keycode::_K, Keycode::_L, Keycode::_M, Keycode::_N,
            Keycode::_O, Keycode::_P, Keycode::_Q, Keycode::_R, Keycode::_S, Keycode::_T, Keycode::_U,
            Keycode::_V, Keycode::_W, Keycode::_X, Keycode::_Y, Keycode::_Z, Keycode::_DOT, Keycode::_COMM,
        ];
        extend_unique(&mut r, &g);
    }
    let ghost s1 = r@.to_set();
    assert(s1 =~= group_if(options.include_alphas, alpha_group()));
    if options.include_numbers {
        let g = vec![
            Keycode::_1, Keycode::_2, Keycode::_3, Keycode::_4, Keycode::_5, Keycode::_6, Keycode::_7,
            Keycode::_8, Keycode::_9, Keycode::_ZERO,
        ];
        extend_unique(&mut r, &g);
    }
    let ghost s2 = r@.to_set();
    assert(s2 =~= s1.union(group_if(options.include_numbers, number_group())));
    if options.include_number_symbols {
        let g = vec![
            Keycode::_EXLM, Keycode::_AT, Keycode::_HASH, Keycode::_DLR, Keycode::_PERC, Keycode::_CIRC,
            Keycode::_AMPR, Keycode::_ASTR, Keycode::_LPRN, Keycode::_RPRN,
        ];
        extend_unique(&mut r, &g);
    }
    let ghost s3 = r@.to_set();
    assert(s3 =~= s2.union(group_if(options.include_number_symbols, number_symbol_group())));
    if options.include_brackets {
        let g = vec![
            Keycode::_LPRN, Keycode::_RPRN, Keycode::_LBRC, Keycode::_RBRC, Keycode::_LCBR, Keycode::_RCBR,
            Keycode::_LT, Keycode::_GT,
        ];
        extend_unique(&mut r, &g);
    }
    let ghost s4 = r@.to_set();
    assert(s4 =~= s3.union(group_if(options.include_brackets, bracket_group())));
    if options.include_misc_symbols {
        let g = vec![
            Keycode::_MINS, Keycode::_EQL, Keycode::_BSLS, Keycode::_SCLN, Keycode::_QUOT, Keycode::_GRV,
            Keycode::_SLSH, Keycode::_LBRC, Keycode::_RBRC,
        ];
        extend_unique(&mut r, &g);
    }
    let ghost s5 = r@.to_set();
    assert(s5 =~= s4.union(group_if(options.include_misc_symbols, misc_symbol_group())));
    if options.include_misc_symbols_shifted {
        let g = vec![
            Keycode::_UNDS, Keycode::_PLUS, Keycode::_PIPE, Keycode::_COLN, Keycode::_DQUO, Keycode::_TILD,
            Keycode::_QUES, Keycode::_LCBR, Keycode::_RCBR,
        ];
        extend_unique(&mut r, &g);
    }
    let ghost s6 = r@.to_set();
    assert(s6 =~= s5.union(group_if(options.include_misc_symbols_shifted, misc_shifted_group())));
    let mut extra: Vec<Keycode> = Vec::new();
    let mut i: usize = 0;
    while i < options.explicit_inclusions.len()
        invariant
            i <= options.explicit_inclusions.len(),
            extra@.to_set() == options.explicit_inclusions@.subrange(0, i as int).to_set().remove(
                Keycode::_NO,
            ),
        decreases options.explicit_inclusions.len() - i,
    {
        let k = options.explicit_inclusions[i];
        let ghost pre = options.explicit_inclusions@.subrange(0, i as int);
        assert(options.explicit_inclusions@.subrange(0, i + 1) =~= pre.push(k));
        proof {
            pre.lemma_push_to_set_commute(k);
        }
        if k != Keycode::_NO {
            let ghost before = extra@;
            extra.push(k);
            proof {
                before.lemma_push_to_set_commute(k);
            }
            assert(extra@.to_set() =~= pre.push(k).to_set().remove(Keycode::_NO));
        } else {
            assert(extra@.to_set() =~= pre.push(k).to_set().remove(Keycode::_NO));
        }
        i = i + 1;
    }
    assert(options.explicit_inclusions@.subrange(0, i as int) =~= options.explicit_inclusions@);
    extend_unique(&mut r, &extra);
    r
}

/// A symbol that is typed with shift on its base key, unless `promoted`
/// gives it a keycode of its own.
pub open spec fn spec_shifted(promoted: bool, own: Keycode, base: Keycode) -> Seq<Keycode> {
    if promoted {
        seq![own]
    } else {
        seq![Keycode::_SFT, base]
    }
}

fn shifted(promoted: bool, own: Keycode, base: Keycode) -> (r: Vec<Keycode>)
    ensures
        r@ == spec_shifted(promoted, own, base),
{
    if promoted {
        vec![own]
    } else {
        vec![Keycode::_SFT, base]
    }
}

/// The keycodes of `c` by the built-in table: letters (with shift when
/// upper case), digits, symbols, and typographic variants normalised to
/// ASCII. A character the table does not know gives nothing.
pub open spec fn spec_decode_plain(c: char, o: KeycodeOptions) -> Seq<Keycode> {
    if 'a' <= c && c <= 'z' {
        seq![spec_letter((c as u32 - 'a' as u32) as u32)]
    } else if 'A' <= c && c <= 'Z' {
        seq![Keycode::_SFT, spec_letter((c as u32 - 'A' as u32) as u32)]
    } else if '1' <= c && c <= '9' {
        seq![spec_digit((c as u32 - '0' as u32) as u32)]
    } else {
        match c {
            '0' => seq![Keycode::_ZERO],
            ' ' => seq![Keycode::_SPC],
            ',' => seq![Keycode::_COMM],
            '.' => seq![Keycode::_DOT],
            '`' => seq![Keycode::_GRV],
            '-' | '—' => seq![Keycode::_MINS],
            '\'' | '’' => seq![Keycode::_QUOT],
            '\n' => seq![Keycode::_ENT],
            ';' => seq![Keycode::_SCLN],
            '=' => seq![Keycode::_EQL],
            '/' => seq![Keycode::_SLSH],
            '\\' => seq![Keycode::_BSLS],
            '[' => seq![Keycode::_LBRC],
            ']' => seq![Keycode::_RBRC],
            '!' => spec_shifted(o.include_number_symbols, Keycode::_EXLM, Keycode::_1),
            '@' => spec_shifted(o.include_number_symbols, Keycode::_AT, Keycode::_2),
            '#' => spec_shifted(o.include_number_symbols, Keycode::_HASH, Keycode::_3),
            '$' => spec_shifted(o.include_number_symbols, Keycode::_DLR, Keycode::_4),
            '%' => spec_shifted(o.include_number_symbols, Keycode::_PERC, Keycode::_5),
            '^' => spec_shifted(o.include_number_symbols, Keycode::_CIRC, Keycode::_6),
            '&' => spec_shifted(o.include_number_symbols, Keycode::_AMPR, Keycode::_7),
            '*' => spec_shifted(o.include_number_symbols, Keycode::_ASTR, Keycode::_8),
            '(' => spec_shifted(o.include_number_symbols || o.include_brackets, Keycode::_LPRN, Keycode::_9),
            ')' => spec_shifted(o.include_number_symbols || o.include_brackets, Keycode::_RPRN, Keycode::_ZERO),
            '_' => spec_shifted(o.include_misc_symbols_shifted, Keycode::_UNDS, Keycode::_MINS),
            '+' => spec_shifted(o.include_misc_symbols_shifted, Keycode::_PLUS, Keycode::_EQL),
            '|' => spec_shifted(o.include_misc_symbols_shifted, Keycode::_PIPE, Keycode::_BSLS),
            ':' => spec_shifted(o.include_misc_symbols_shifted, Keycode::_COLN, Keycode::_SCLN),
            '"' | '“' | '”' => spec_shifted(o.include_misc_symbols_shifted, Keycode::_DQUO, Keycode::_QUOT),
            '~' => spec_shifted(o.include_misc_symbols_shifted, Keycode::_TILD, Keycode::_GRV),
            '?' => spec_shifted(o.include_misc_symbols_shifted, Keycode::_QUES, Keycode::_SLSH),
            '<' => spec_shifted(o.include_brackets, Keycode::_LT, Keycode::_COMM),
            '>' => spec_shifted(o.include_brackets, Keycode::_GT, Keycode::_DOT),
            '{' => spec_shifted(o.include_brackets || o.include_misc_symbols_shifted, Keycode::_LCBR, Keycode::_LBRC),
            '}' => spec_shifted(o.include_brackets || o.include_misc_symbols_shifted, Keycode::_RCBR, Keycode::_RBRC),
            '…' => seq![Keycode::_DOT, Keycode::_DOT, Keycode::_DOT],
            _ => seq![],
        }
    }
}

/// The first explicit inclusion that types `c` on its own.
pub open spec fn spec_inclusion_for(incl: Seq<Keycode>, c: char) -> Option<Keycode>
    decreases incl.len(),
{
    if incl.len() == 0 {
        None
    } else if incl[0].spec_char() == Some(c) {
        Some(incl[0])
    } else {
        spec_inclusion_for(incl.drop_first(), c)
    }
}

/// The keycodes that type `c` under `o`: an explicit inclusion for `c` wins
/// over the built-in table.
pub open spec fn spec_decode_char(c: char, o: KeycodeOptions) -> Seq<Keycode> {
    match spec_inclusion_for(o.explicit_inclusions@, c) {
        Some(k) => seq![k],
        None => spec_decode_plain(c, o),
    }
}

/// The keycodes of the characters of `s`, concatenated.
pub open spec fn spec_decode_string(s: Seq<char>, o: KeycodeOptions) -> Seq<Keycode>
    decreases s.len(),
{
    if s.len() == 0 {
        Seq::empty()
    } else {
        spec_decode_string(s.drop_last(), o) + spec_decode_char(s.last(), o)
    }
}

fn decode_plain(c: char, o: &KeycodeOptions) -> (r: Vec<Keycode>)
    ensures
        r@ == spec_decode_plain(c, *o),
{
    if 'a' <= c && c <= 'z' {
        let k = letter(c as u32 - 'a' as u32);
        vec![k]
    } else if 'A' <= c && c <= 'Z' {
        let k = letter(c as u32 - 'A' as u32);
        vec![Keycode::_SFT, k]
    } else if '1' <= c && c <= '9' {
        let k = digit(c as u32 - '0' as u32);
        vec![k]
    } else {
        match c {
            '0' => vec![Keycode::_ZERO],
            ' ' => vec![Keycode::_SPC],
            ',' => vec![Keycode::_COMM],
            '.' => vec![Keycode::_DOT],
            '`' => vec![Keycode::_GRV],
            '-' | '—' => vec![Keycode::_MINS],
            '\'' | '’' => vec![Keycode::_QUOT],
            '\n' => vec![Keycode::_ENT],
            ';' => vec![Keycode::_SCLN],
            '=' => vec![Keycode::_EQL],
            '/' => vec![Keycode::_SLSH],
            '\\' => vec![Keycode::_BSLS],
            '[' => vec![Keycode::_LBRC],
            ']' => vec![Keycode::_RBRC],
            '!' => shifted(o.include_number_symbols, Keycode::_EXLM, Keycode::_1),
            '@' => shifted(o.include_number_symbols, Keycode::_AT, Keycode::_2),
            '#' => shifted(o.include_number_symbols, Keycode::_HASH, Keycode::_3),
            '$' => shifted(o.include_number_symbols, Keycode::_DLR, Keycode::_4),
            '%' => shifted(o.include_number_symbols, Keycode::_PERC, Keycode::_5),
            '^' => shifted(o.include_number_symbols, Keycode::_CIRC, Keycode::_6),
            '&' => shifted(o.include_number_symbols, Keycode::_AMPR, Keycode::_7),
            '*' => shifted(o.include_number_symbols, Keycode::_ASTR, Keycode::_8),
            '(' => shifted(o.include_number_symbols || o.include_brackets, Keycode::_LPRN, Keycode::_9),
            ')' => shifted(o.include_number_symbols || o.include_brackets, Keycode::_RPRN, Keycode::_ZERO),
            '_' => shifted(o.include_misc_symbols_shifted, Keycode::_UNDS, Keycode::_MINS),
            '+' => shifted(o.include_misc_symbols_shifted, Keycode::_PLUS, Keycode::_EQL),
            '|' => shifted(o.include_misc_symbols_shifted, Keycode::_PIPE, Keycode::_BSLS),
            ':' => shifted(o.include_misc_symbols_shifted, Keycode::_COLN, Keycode::_SCLN),
            '"' | '“' | '”' => shifted(o.include_misc_symbols_shifted, Keycode::_DQUO, Keycode::_QUOT),
            '~' => shifted(o.include_misc_symbols_shifted, Keycode::_TILD, Keycode::_GRV),
            '?' => shifted(o.include_misc_symbols_shifted, Keycode::_QUES, Keycode::_SLSH),
            '<' => shifted(o.include_brackets, Keycode::_LT, Keycode::_COMM),
            '>' => shifted(o.include_brackets, Keycode::_GT, Keycode::_DOT),
            '{' => shifted(o.include_brackets || o.include_misc_symbols_shifted, Keycode::_LCBR, Keycode::_LBRC),
            '}' => shifted(o.include_brackets || o.include_misc_symbols_shifted, Keycode::_RCBR, Keycode::_RBRC),
            '…' => vec![Keycode::_DOT, Keycode::_DOT, Keycode::_DOT],
            _ => vec![],
        }
    }
}

impl Keycode {
    /// The keycodes that type `c`.
    pub fn from_char(c: char, options: &KeycodeOptions) -> (r: Vec<Keycode>)
        ensures
            r@ == spec_decode_char(c, *options),
    {
        let incl = &options.explicit_inclusions;
        let mut i: usize = 0;
        assert(incl@.subrange(0, incl@.len() as int) =~= incl@);
        while i < incl.len()
            invariant
                i <= incl.len(),
                incl@ == options.explicit_inclusions@,
                spec_inclusion_for(incl@, c) == spec_inclusion_for(incl@.subrange(i as int, incl@.len() as int), c),
            decreases incl.len() - i,
        {
            let k = incl[i];
            assert(incl@.subrange(i + 1, incl@.len() as int) =~= incl@.subrange(i as int, incl@.len() as int).drop_first());
            assert(incl@.subrange(i as int, incl@.len() as int)[0] == k);
            if k.to_char() == Some(c) {
                assert(spec_inclusion_for(incl@, c) == Some(k));
                let r = vec![k];
                assert(r@ =~= seq![k]);
                return r;
            }
            i = i + 1;
        }
        decode_plain(c, options)
    }

    /// The keycodes that type the characters of `s`, in order.
    pub fn from_string(s: &str, options: &KeycodeOptions) -> (r: Vec<Keycode>)
        ensures
            r@ == spec_decode_string(s@, *options),
    {
        let n = s.unicode_len();
        let mut r: Vec<Keycode> = Vec::new();
        let mut i: usize = 0;
        while i < n
            invariant
                i <= n,
                n == s@.len(),
                r@ == spec_decode_string(s@.subrange(0, i as int), *options),
            decreases n - i,
        {
            let c = s.get_char(i);
            let mut part = Keycode::from_char(c, options);
            r.append(&mut part);
            assert(s@.subrange(0, i + 1).drop_last() =~= s@.subrange(0, i as int));
            i = i + 1;
        }
        assert(s@.subrange(0, n as int) =~= s@);
        r
    }
}

} // verus!
