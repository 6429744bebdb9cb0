use vstd::prelude::*;

use crate::error::AlcError;
use crate::keycode::{named_keycodes, spec_named_keycodes, Keycode};
use crate::text::{message, same_chars, spec_split, split_chars, string_from_chars};

verus! {

/// Whether a cell can take part in randomisation.
pub trait Randomizeable {
    fn is_randomizeable(&self) -> bool;
}

/// The value that a cell of a layer carries.
pub trait KeyValue {
    type Item;

    fn value(&self) -> Self::Item;
}

/// A cell of a layout: a keycode, whether the search may move it, and
/// whether it is bound to its mirror cell.
#[derive(Debug, PartialEq, Eq, Structural, Clone, Copy)]
pub struct KeycodeKey {
    pub value: Keycode,
    pub is_moveable: bool,
    pub is_symmetric: bool,
}

impl KeycodeKey {
    pub fn default_from_keycode(k: Keycode) -> (r: Self)
        ensures
            r == (KeycodeKey { value: k, is_moveable: true, is_symmetric: false }),
    {
        KeycodeKey { value: k, is_moveable: true, is_symmetric: false }
    }

    pub fn value(&self) -> (r: Keycode)
        ensures
            r == self.value,
    {
        self.value
    }

    pub fn set_value(&mut self, new_value: Keycode)
        ensures
            *final(self) == (KeycodeKey { value: new_value, ..*old(self) }),
    {
        self.value = new_value
    }

    pub fn is_moveable(&self) -> (r: bool)
        ensures
            r == self.is_moveable,
    {
        self.is_moveable
    }

    pub fn set_is_moveable(&mut self, new_moveability: bool)
        ensures
            *final(self) == (KeycodeKey { is_moveable: new_moveability, ..*old(self) }),
    {
        self.is_moveable = new_moveability
    }

    pub fn is_symmetric(&self) -> (r: bool)
        ensures
            r == self.is_symmetric,
    {
        self.is_symmetric
    }

    pub fn set_is_symmetric(&mut self, new_symmetric: bool)
        ensures
            *final(self) == (KeycodeKey { is_symmetric: new_symmetric, ..*old(self) }),
    {
        self.is_symmetric = new_symmetric
    }

    /// Takes the value and both flags of `new_key`.
    pub fn replace_with(&mut self, new_key: &KeycodeKey)
        ensures
            *final(self) == *new_key,
    {
        self.set_value(new_key.value());
        self.set_is_moveable(new_key.is_moveable());
        self.set_is_symmetric(new_key.is_symmetric());
    }

    /// Neither a layer switch nor its target marker, moveable, and not
    /// symmetric.
    pub open spec fn spec_randomizeable(self) -> bool {
        !(self.value is _LS) && !(self.value is _LST) && self.is_moveable && !self.is_symmetric
    }

    pub fn randomizeable(&self) -> (r: bool)
        ensures
            r == self.spec_randomizeable(),
    {
        match self.value {
            Keycode::_LS(_) => false,
            Keycode::_LST(_, _) => false,
            _ => self.is_moveable && !self.is_symmetric,
        }
    }
}

impl Randomizeable for KeycodeKey {
    fn is_randomizeable(&self) -> bool {
        self.randomizeable()
    }
}

impl KeyValue for KeycodeKey {
    type Item = Keycode;

    fn value(&self) -> Keycode {
        self.value
    }
}

impl Default for KeycodeKey {
    fn default() -> (r: Self)
        ensures
            r == (KeycodeKey { value: Keycode::_E, is_moveable: true, is_symmetric: false }),
    {
        KeycodeKey { value: Keycode::_E, is_moveable: true, is_symmetric: false }
    }
}

pub open spec fn is_digit(c: char) -> bool {
    '0' <= c && c <= '9'
}

pub open spec fn digit_value(c: char) -> nat {
    (c as u32 - '0' as u32) as nat
}

/// The first named keycode whose short name is `n`.
pub open spec fn spec_keycode_named_in(ks: Seq<Keycode>, n: Seq<char>) -> Option<Keycode>
    decreases ks.len(),
{
    if ks.len() == 0 {
        None
    } else if ks[0].spec_short_name() == n {
        Some(ks[0])
    } else {
        spec_keycode_named_in(ks.drop_first(), n)
    }
}

pub open spec fn spec_keycode_named(n: Seq<char>) -> Option<Keycode> {
    spec_keycode_named_in(spec_named_keycodes(), n)
}

/// The keycode that a cell token names before its flags: `_` is the blank,
/// `LST<t>_<s>` and `LS<t>` are layer keys with one-digit layers, anything
/// else is a short name.
pub open spec fn spec_token_keycode(t: Seq<char>) -> Option<Keycode> {
    if t.len() == 0 {
        None
    } else if t[0] == '_' {
        Some(Keycode::_NO)
    } else if t.len() >= 3 && t[0] == 'L' && t[1] == 'S' && t[2] == 'T' {
        if t.len() >= 6 && is_digit(t[3]) && is_digit(t[5]) {
            Some(Keycode::_LST(digit_value(t[3]) as usize, digit_value(t[5]) as usize))
        } else {
            None
        }
    } else if t.len() >= 2 && t[0] == 'L' && t[1] == 'S' {
        if t.len() >= 3 && is_digit(t[2]) {
            Some(Keycode::_LS(digit_value(t[2]) as usize))
        } else {
            None
        }
    } else {
        spec_keycode_named(spec_split(t, '_')[0])
    }
}

/// Which `_`-separated piece of a token holds its two flags.
pub open spec fn flags_piece_index(t: Seq<char>) -> int {
    if t.len() > 0 && t[0] == '_' {
        2
    } else if t.len() >= 3 && t[0] == 'L' && t[1] == 'S' && t[2] == 'T' {
        2
    } else {
        1
    }
}

/// The cell that a token `<keycode>_<moveable><symmetric>` describes, if it
/// is well formed: two flag digits, and no symmetric layer key.
pub open spec fn spec_parse_key(t: Seq<char>) -> Option<KeycodeKey> {
    let pieces = spec_split(t, '_');
    let fi = flags_piece_index(t);
    match spec_token_keycode(t) {
        None => None,
        Some(k) => if fi < pieces.len() && pieces[fi].len() == 2 && is_digit(pieces[fi][0])
            && is_digit(pieces[fi][1]) {
            let m = digit_value(pieces[fi][0]) != 0;
            let s = digit_value(pieces[fi][1]) != 0;
            if s && (k is _LS || k is _LST) {
                None
            } else {
                Some(KeycodeKey { value: k, is_moveable: m, is_symmetric: s })
            }
        } else {
            None
        },
    }
}

/// The named keycode whose short name is `n`.
pub fn keycode_named(n: &Vec<char>) -> (r: Option<Keycode>)
    ensures
        r == spec_keycode_named(n@),
{
    let ks = named_keycodes();
    let mut i: usize = 0;
    assert(ks@.subrange(0, ks@.len() as int) =~= ks@);
    while i < ks.len()
        invariant
            i <= ks.len(),
            ks@ == spec_named_keycodes(),
            spec_keycode_named(n@) == spec_keycode_named_in(ks@.subrange(i as int, ks@.len() as int), n@),
        decreases ks.len() - i,
    {
        let k = ks[i];
        assert(ks@.subrange(i + 1, ks@.len() as int) =~= ks@.subrange(i as int, ks@.len() as int).drop_first());
        assert(ks@.subrange(i as int, ks@.len() as int)[0] == k);
        if same_chars(k.short_name(), n) {
            return Some(k);
        }
        i = i + 1;
    }
    None
}

fn char_digit(c: char) -> (r: usize)
    requires
        is_digit(c),
    ensures
        r == digit_value(c),
{
    (c as u32 - '0' as u32) as usize
}

fn token_keycode(t: &Vec<char>, pieces: &Vec<Vec<char>>) -> (r: Option<Keycode>)
    requires
        pieces@.len() == spec_split(t@, '_').len(),
        forall|i: int| 0 <= i < pieces@.len() ==> #[trigger] pieces@[i]@ == spec_split(t@, '_')[i],
    ensures
        r == spec_token_keycode(t@),
{
    let n = t.len();
    if n == 0 {
        None
    } else if t[0] == '_' {
        Some(Keycode::_NO)
    } else if n >= 3 && t[0] == 'L' && t[1] == 'S' && t[2] == 'T' {
        if n >= 6 && '0' <= t[3] && t[3] <= '9' && '0' <= t[5] && t[5] <= '9' {
            Some(Keycode::_LST(char_digit(t[3]), char_digit(t[5])))
        } else {
            None
        }
    } else if n >= 2 && t[0] == 'L' && t[1] == 'S' {
        if n >= 3 && '0' <= t[2] && t[2] <= '9' {
            Some(Keycode::_LS(char_digit(t[2])))
        } else {
            None
        }
    } else {
        proof {
            crate::text::lemma_split_nonempty(t@, '_');
        }
        keycode_named(&pieces[0])
    }
}

fn invalid_key(t: &Vec<char>, why: &str) -> (e: AlcError)
    ensures
        e matches AlcError::InvalidKeycodeKeyFromString(s, _) && s@ == t@,
{
    AlcError::InvalidKeycodeKeyFromString(string_from_chars(t), message(why))
}

impl KeycodeKey {
    /// Reads a cell token such as `A_10`, `__00`, `LS1_10` or `LST1_0_10`.
    pub fn from_chars(t: &Vec<char>) -> (r: Result<KeycodeKey, AlcError>)
        ensures
            r.is_ok() <==> spec_parse_key(t@).is_some(),
            r.is_ok() ==> r == Ok::<KeycodeKey, AlcError>(spec_parse_key(t@)->Some_0),
            r.is_err() ==> (r->Err_0 matches AlcError::InvalidKeycodeKeyFromString(s, _) && s@ == t@),
    {
        let pieces = split_chars(t, '_');
        let k = match token_keycode(t, &pieces) {
            Some(k) => k,
            None => {
                return Err(invalid_key(t, "keycode not found"));
            },
        };
        let fi: usize = if t[0] == '_' {
            2
        } else if t.len() >= 3 && t[0] == 'L' && t[1] == 'S' && t[2] == 'T' {
            2
        } else {
            1
        };
        assert(fi == flags_piece_index(t@));
        if fi >= pieces.len() {
            return Err(invalid_key(t, "no bit flags found"));
        }
        let flags = &pieces[fi];
        if flags.len() != 2 || !('0' <= flags[0] && flags[0] <= '9') || !('0' <= flags[1] && flags[1]
            <= '9') {
            return Err(invalid_key(t, "expected two bit flags"));
        }
        let m = char_digit(flags[0]) != 0;
        let s = char_digit(flags[1]) != 0;
        if s {
            match k {
                Keycode::_LS(_) | Keycode::_LST(_, _) => {
                    return Err(
                        invalid_key(
                            t,
                            "don't set a layer switch key to be symmetric due to the additional complexity",
                        ),
                    );
                },
                _ => {},
            }
        }
        Ok(KeycodeKey { value: k, is_moveable: m, is_symmetric: s })
    }

    /// Reads a cell token; see [`KeycodeKey::from_chars`].
    pub fn try_from_str(key_string: &str) -> (r: Result<KeycodeKey, AlcError>)
        ensures
            r.is_ok() <==> spec_parse_key(key_string@).is_some(),
            r.is_ok() ==> r == Ok::<KeycodeKey, AlcError>(spec_parse_key(key_string@)->Some_0),
            r.is_err() ==> (r->Err_0 matches AlcError::InvalidKeycodeKeyFromString(s, _) && s@
                == key_string@),
    {
        let t = crate::text::chars_of(key_string);
        KeycodeKey::from_chars(&t)
    }
}

#[derive(Debug, PartialEq, Eq, Structural, Clone, Copy)]
pub enum Hand {
    Left,
    Right,
    PlaceholderHand,
}

/// Fingers; the thumb is the widest. A joint is the lower palm by the
/// pinkie and only equals itself; the placeholder compares with nothing.
#[derive(Debug, PartialEq, Eq, Structural, Clone, Copy)]
pub enum Finger {
    Thumb,
    Index,
    Middle,
    Ring,
    Pinkie,
    Joint,
    PlaceholderFinger,
}

/// Width rank of the ordered fingers: Thumb 5 down to Pinkie 1.
pub open spec fn finger_rank(f: Finger) -> Option<int> {
    match f {
        Finger::Thumb => Some(5),
        Finger::Index => Some(4),
        Finger::Middle => Some(3),
        Finger::Ring => Some(2),
        Finger::Pinkie => Some(1),
        _ => None,
    }
}

pub open spec fn spec_finger_cmp(a: Finger, b: Finger) -> Option<core::cmp::Ordering> {
    if a == Finger::Joint && b == Finger::Joint {
        Some(core::cmp::Ordering::Equal)
    } else {
        match (finger_rank(a), finger_rank(b)) {
            (Some(x), Some(y)) => if x < y {
                Some(core::cmp::Ordering::Less)
            } else if x == y {
                Some(core::cmp::Ordering::Equal)
            } else {
                Some(core::cmp::Ordering::Greater)
            },
            _ => None,
        }
    }
}

fn rank(f: Finger) -> (r: u8)
    ensures
        finger_rank(f) is Some ==> r == finger_rank(f)->Some_0,
        finger_rank(f) is None ==> r == 0,
{
    match f {
        Finger::Thumb => 5,
        Finger::Index => 4,
        Finger::Middle => 3,
        Finger::Ring => 2,
        Finger::Pinkie => 1,
        _ => 0,
    }
}

impl PartialOrd for Finger {
    fn partial_cmp(&self, other: &Finger) -> (r: Option<core::cmp::Ordering>) {
        if *self == Finger::Joint && *other == Finger::Joint {
            return Some(core::cmp::Ordering::Equal);
        }
        let a = rank(*self);
        let b = rank(*other);
        if a == 0 || b == 0 {
            None
        } else if a < b {
            Some(core::cmp::Ordering::Less)
        } else if a == b {
            Some(core::cmp::Ordering::Equal)
        } else {
            Some(core::cmp::Ordering::Greater)
        }
    }
}

impl vstd::std_specs::cmp::PartialOrdSpecImpl for Finger {
    open spec fn obeys_partial_cmp_spec() -> bool {
        true
    }

    open spec fn partial_cmp_spec(&self, other: &Finger) -> Option<core::cmp::Ordering> {
        spec_finger_cmp(*self, *other)
    }
}

/// The hand and finger that press a cell.
#[derive(Debug, PartialEq, Eq, Structural, Clone, Copy)]
pub struct PhalanxKey {
    pub hand: Hand,
    pub finger: Finger,
}

impl PhalanxKey {
    pub fn new(hand: Hand, finger: Finger) -> (r: Self)
        ensures
            r == (PhalanxKey { hand, finger }),
    {
        PhalanxKey { hand, finger }
    }

    pub fn value(&self) -> (r: (Hand, Finger))
        ensures
            r == (self.hand, self.finger),
    {
        (self.hand, self.finger)
    }
}

impl KeyValue for PhalanxKey {
    type Item = (Hand, Finger);

    fn value(&self) -> (Hand, Finger) {
        (self.hand, self.finger)
    }
}

impl Default for PhalanxKey {
    fn default() -> (r: Self)
        ensures
            r == (PhalanxKey { hand: Hand::Left, finger: Finger::Index }),
    {
        PhalanxKey { hand: Hand::Left, finger: Finger::Index }
    }
}

/// `s` with its first character in upper case when it is an ASCII letter.
pub open spec fn spec_upper_first(s: Seq<char>) -> Seq<char> {
    if s.len() > 0 && 'a' <= s[0] && s[0] <= 'z' {
        s.update(0, ((s[0] as u32 - 32) as u8) as char)
    } else {
        s
    }
}

fn uppercase_first_letter(s: &Vec<char>) -> (r: Vec<char>)
    ensures
        r@ == spec_upper_first(s@),
{
    let mut r = crate::text::copy_chars(s);
    if r.len() > 0 && 'a' <= r[0] && r[0] <= 'z' {
        let u = ((r[0] as u32 - 32) as u8) as char;
        r.set(0, u);
    }
    r
}

/// The hand that a phalanx token names: `l`/`L`, `r`/`R`, or a full name
/// with an optional lower-case first letter.
pub open spec fn spec_hand_named(p: Seq<char>) -> Option<Hand> {
    if p == "l"@ || p == "L"@ {
        Some(Hand::Left)
    } else if p == "r"@ || p == "R"@ {
        Some(Hand::Right)
    } else if spec_upper_first(p) == "Left"@ {
        Some(Hand::Left)
    } else if spec_upper_first(p) == "Right"@ {
        Some(Hand::Right)
    } else if spec_upper_first(p) == "PlaceholderHand"@ {
        Some(Hand::PlaceholderHand)
    } else {
        None
    }
}

/// The finger that a phalanx token names: one letter of `t i m r p j` in
/// either case, or a full name with an optional lower-case first letter.
pub open spec fn spec_finger_named(p: Seq<char>) -> Option<Finger> {
    if p == "t"@ || p == "T"@ {
        Some(Finger::Thumb)
    } else if p == "i"@ || p == "I"@ {
        Some(Finger::Index)
    } else if p == "m"@ || p == "M"@ {
        Some(Finger::Middle)
    } else if p == "r"@ || p == "R"@ {
        Some(Finger::Ring)
    } else if p == "p"@ || p == "P"@ {
        Some(Finger::Pinkie)
    } else if p == "j"@ || p == "J"@ {
        Some(Finger::Joint)
    } else if spec_upper_first(p) == "Thumb"@ {
        Some(Finger::Thumb)
    } else if spec_upper_first(p) == "Index"@ {
        Some(Finger::Index)
    } else if spec_upper_first(p) == "Middle"@ {
        Some(Finger::Middle)
    } else if spec_upper_first(p) == "Ring"@ {
        Some(Finger::Ring)
    } else if spec_upper_first(p) == "Pinkie"@ {
        Some(Finger::Pinkie)
    } else if spec_upper_first(p) == "Joint"@ {
        Some(Finger::Joint)
    } else if spec_upper_first(p) == "PlaceholderFinger"@ {
        Some(Finger::PlaceholderFinger)
    } else {
        None
    }
}

/// The cell that a token `<hand>:<finger>` describes.
pub open spec fn spec_parse_phalanx(t: Seq<char>) -> Option<PhalanxKey> {
    let pieces = spec_split(t, ':');
    if pieces.len() < 2 {
        None
    } else {
        match (spec_hand_named(pieces[0]), spec_finger_named(pieces[1])) {
            (Some(h), Some(f)) => Some(PhalanxKey { hand: h, finger: f }),
            _ => None,
        }
    }
}

fn hand_named(p: &Vec<char>) -> (r: Option<Hand>)
    ensures
        r == spec_hand_named(p@),
{
    if same_chars("l", p) || same_chars("L", p) {
        return Some(Hand::Left);
    }
    if same_chars("r", p) || same_chars("R", p) {
        return Some(Hand::Right);
    }
    let u = uppercase_first_letter(p);
    if same_chars("Left", &u) {
        Some(Hand::Left)
    } else if same_chars("Right", &u) {
        Some(Hand::Right)
    } else if same_chars("PlaceholderHand", &u) {
        Some(Hand::PlaceholderHand)
    } else {
        None
    }
}

fn finger_named(p: &Vec<char>) -> (r: Option<Finger>)
    ensures
        r == spec_finger_named(p@),
{
    if same_chars("t", p) || same_chars("T", p) {
        return Some(Finger::Thumb);
    }
    if same_chars("i", p) || same_chars("I", p) {
        return Some(Finger::Index);
    }
    if same_chars("m", p) || same_chars("M", p) {
        return Some(Finger::Middle);
    }
    if same_chars("r", p) || same_chars("R", p) {
        return Some(Finger::Ring);
    }
    if same_chars("p", p) || same_chars("P", p) {
        return Some(Finger::Pinkie);
    }
    if same_chars("j", p) || same_chars("J", p) {
        return Some(Finger::Joint);
    }
    let u = uppercase_first_letter(p);
    if same_chars("Thumb", &u) {
        Some(Finger::Thumb)
    } else if same_chars("Index", &u) {
        Some(Finger::Index)
    } else if same_chars("Middle", &u) {
        Some(Finger::Middle)
    } else if same_chars("Ring", &u) {
        Some(Finger::Ring)
    } else if same_chars("Pinkie", &u) {
        Some(Finger::Pinkie)
    } else if same_chars("Joint", &u) {
        Some(Finger::Joint)
    } else if same_chars("PlaceholderFinger", &u) {
        Some(Finger::PlaceholderFinger)
    } else {
        None
    }
}

impl PhalanxKey {
    /// Reads a phalanx token such as `L:I` or `right:ring`.
    pub fn from_chars(t: &Vec<char>) -> (r: Result<PhalanxKey, AlcError>)
        ensures
            r.is_ok() <==> spec_parse_phalanx(t@).is_some(),
            r.is_ok() ==> r == Ok::<PhalanxKey, AlcError>(spec_parse_phalanx(t@)->Some_0),
            r.is_err() ==> (r->Err_0 matches AlcError::InvalidPhalanxError(s) && s@ == t@),
    {
        let pieces = split_chars(t, ':');
        if pieces.len() < 2 {
            return Err(AlcError::InvalidPhalanxError(string_from_chars(t)));
        }
        match (hand_named(&pieces[0]), finger_named(&pieces[1])) {
            (Some(h), Some(f)) => Ok(PhalanxKey { hand: h, finger: f }),
            _ => Err(AlcError::InvalidPhalanxError(string_from_chars(t))),
        }
    }
}

impl Keycode {
    /// The keycode whose variant name is `s` (`_A`, `_SPC`), for keycodes
    /// without a layer parameter.
    pub fn from_name(s: &str) -> (r: Option<Keycode>)
        ensures
            s@.len() == 0 || s@[0] != '_' ==> r.is_none(),
            s@.len() > 0 && s@[0] == '_' ==> r == spec_keycode_named(s@.drop_first()),
    {
        let cs = crate::text::chars_of(s);
        if cs.len() == 0 || cs[0] != '_' {
            return None;
        }
        let mut rest: Vec<char> = Vec::new();
        let mut i: usize = 1;
        while i < cs.len()
            invariant
                1 <= i <= cs@.len(),
                rest@ == cs@.subrange(1, i as int),
            decreases cs@.len() - i,
        {
            rest.push(cs[i]);
            assert(cs@.subrange(1, i + 1) =~= cs@.subrange(1, i as int).push(cs@[i as int]));
            i = i + 1;
        }
        assert(rest@ =~= s@.drop_first());
        keycode_named(&rest)
    }
}

} // verus!
