use vstd::prelude::*;
use vstd::string::*;

verus! {

/// The pieces of `s` between occurrences of `sep`, as `str::split` gives them
/// (an empty `s` gives one empty piece).
pub open spec fn spec_split(s: Seq<char>, sep: char) -> Seq<Seq<char>>
    decreases s.len(),
{
    if s.len() == 0 {
        seq![Seq::empty()]
    } else {
        let p = spec_split(s.drop_last(), sep);
        if s.last() == sep {
            p.push(Seq::empty())
        } else {
            p.update(p.len() - 1, p.last().push(s.last()))
        }
    }
}

pub proof fn lemma_split_nonempty(s: Seq<char>, sep: char)
    ensures
        spec_split(s, sep).len() >= 1,
    decreases s.len(),
{
    if s.len() > 0 {
        lemma_split_nonempty(s.drop_last(), sep);
    }
}

/// Unicode White_Space, as `char::is_whitespace` gives it: tab to carriage
/// return, space, next line, no-break space, ogham space, the en quad to
/// hair space block, line and paragraph separators, narrow no-break space,
/// medium mathematical space and ideographic space.
pub open spec fn is_space(c: char) -> bool {
    ('\t' <= c && c <= '\r') || c == ' ' || c == '\u{85}' || c == '\u{a0}' || c == '\u{1680}' || ('\u{2000}'
        <= c && c <= '\u{200a}') || c == '\u{2028}' || c == '\u{2029}' || c == '\u{202f}' || c == '\u{205f}'
        || c == '\u{3000}'
}

pub fn space(c: char) -> (r: bool)
    ensures
        r == is_space(c),
{
    ('\t' <= c && c <= '\r') || c == ' ' || c == '\u{85}' || c == '\u{a0}' || c == '\u{1680}' || ('\u{2000}'
        <= c && c <= '\u{200a}') || c == '\u{2028}' || c == '\u{2029}' || c == '\u{202f}' || c == '\u{205f}'
        || c == '\u{3000}'
}

/// A line with whitespace only.
pub open spec fn is_blank(s: Seq<char>) -> bool {
    forall|i: int| 0 <= i < s.len() ==> is_space(#[trigger] s[i])
}

/// The maximal runs of non-whitespace characters of `s`, in order.
pub open spec fn spec_words(s: Seq<char>) -> Seq<Seq<char>>
    decreases s.len(),
{
    if s.len() == 0 {
        Seq::empty()
    } else {
        let p = spec_words(s.drop_last());
        if is_space(s.last()) {
            p
        } else if s.len() >= 2 && !is_space(s[s.len() - 2]) && p.len() > 0 {
            p.update(p.len() - 1, p.last().push(s.last()))
        } else {
            p.push(seq![s.last()])
        }
    }
}

/// The characters of `s`.
pub fn chars_of(s: &str) -> (r: Vec<char>)
    ensures
        r@ == s@,
{
    let n = s.unicode_len();
    let mut r: Vec<char> = Vec::new();
    let mut i: usize = 0;
    while i < n
        invariant
            i <= n,
            n == s@.len(),
            r@ == s@.subrange(0, i as int),
        decreases n - i,
    {
        r.push(s.get_char(i));
        assert(s@.subrange(0, i + 1) =~= s@.subrange(0, i as int).push(s@[i as int]));
        i = i + 1;
    }
    assert(s@.subrange(0, n as int) =~= s@);
    r
}

/// A copy of `v`, element by element.
pub fn copy_chars(v: &Vec<char>) -> (r: Vec<char>)
    ensures
        r@ == v@,
{
    let mut r: Vec<char> = Vec::new();
    let mut i: usize = 0;
    while i < v.len()
        invariant
            i <= v.len(),
            r@ == v@.subrange(0, i as int),
        decreases v.len() - i,
    {
        r.push(v[i]);
        assert(v@.subrange(0, i + 1) =~= v@.subrange(0, i as int).push(v@[i as int]));
        i = i + 1;
    }
    assert(v@.subrange(0, v.len() as int) =~= v@);
    r
}

/// Whether `a` holds exactly the characters of `b`.
pub fn same_chars(a: &str, b: &Vec<char>) -> (r: bool)
    ensures
        r == (a@ == b@),
{
    let n = a.unicode_len();
    if n != b.len() {
        return false;
    }
    let mut i: usize = 0;
    while i < n
        invariant
            i <= n,
            n == a@.len(),
            n == b@.len(),
            forall|j: int| 0 <= j < i ==> a@[j] == b@[j],
        decreases n - i,
    {
        if a.get_char(i) != b[i] {
            return false;
        }
        i = i + 1;
    }
    assert(a@ =~= b@);
    true
}

/// Relies on `String::from_iter` over chars: the string holds these characters.
#[verifier::external_body]
pub fn string_from_chars(v: &Vec<char>) -> (r: String)
    ensures
        r@ == v@,
{
    String::from_iter(v.iter())
}

/// An owned copy of `s`.
pub fn message(s: &str) -> (r: String)
    ensures
        r@ == s@,
{
    s.to_owned()
}

/// The pieces of `s` between occurrences of `sep`.
pub fn split_chars(s: &Vec<char>, sep: char) -> (r: Vec<Vec<char>>)
    ensures
        r@.len() == spec_split(s@, sep).len(),
        forall|i: int| 0 <= i < r@.len() ==> #[trigger] r@[i]@ == spec_split(s@, sep)[i],
{
    let mut r: Vec<Vec<char>> = Vec::new();
    let mut cur: Vec<char> = Vec::new();
    let mut i: usize = 0;
    while i < s.len()
        invariant
            i <= s.len(),
            r@.len() + 1 == spec_split(s@.subrange(0, i as int), sep).len(),
            forall|j: int| 0 <= j < r@.len() ==> #[trigger] r@[j]@ == spec_split(s@.subrange(0, i as int), sep)[j],
            cur@ == spec_split(s@.subrange(0, i as int), sep).last(),
        decreases s.len() - i,
    {
        let c = s[i];
        proof {
            lemma_split_nonempty(s@.subrange(0, i as int), sep);
        }
        assert(s@.subrange(0, i + 1).drop_last() =~= s@.subrange(0, i as int));
        if c == sep {
            r.push(cur);
            cur = Vec::new();
        } else {
            cur.push(c);
        }
        i = i + 1;
    }
    assert(s@.subrange(0, s.len() as int) =~= s@);
    r.push(cur);
    r
}

/// Whether every character of `s` is whitespace.
pub fn blank(s: &Vec<char>) -> (r: bool)
    ensures
        r == is_blank(s@),
{
    let mut i: usize = 0;
    while i < s.len()
        invariant
            i <= s.len(),
            forall|j: int| 0 <= j < i ==> is_space(#[trigger] s@[j]),
        decreases s.len() - i,
    {
        if !space(s[i]) {
            return false;
        }
        i = i + 1;
    }
    true
}

/// The maximal runs of non-whitespace characters of `s`.
pub fn words(s: &Vec<char>) -> (r: Vec<Vec<char>>)
    ensures
        r@.len() == spec_words(s@).len(),
        forall|i: int| 0 <= i < r@.len() ==> #[trigger] r@[i]@ == spec_words(s@)[i],
{
    let mut r: Vec<Vec<char>> = Vec::new();
    let mut cur: Vec<char> = Vec::new();
    let mut i: usize = 0;
    while i < s.len()
        invariant
            i <= s.len(),
            cur@.len() == 0 ==> (r@.len() == spec_words(s@.subrange(0, i as int)).len()
                && forall|j: int| 0 <= j < r@.len() ==> #[trigger] r@[j]@ == spec_words(s@.subrange(0, i as int))[j]),
            cur@.len() == 0 ==> (i == 0 || is_space(s@[i - 1])),
            cur@.len() > 0 ==> (i > 0 && !is_space(s@[i - 1]) && r@.len() + 1 == spec_words(s@.subrange(0, i as int)).len()
                && (forall|j: int| 0 <= j < r@.len() ==> #[trigger] r@[j]@ == spec_words(s@.subrange(0, i as int))[j])
                && cur@ == spec_words(s@.subrange(0, i as int)).last()),
        decreases s.len() - i,
    {
        let c = s[i];
        let ghost pre = s@.subrange(0, i as int);
        let ghost now = s@.subrange(0, i + 1);
        assert(now.drop_last() =~= pre);
        if space(c) {
            if cur.len() > 0 {
                r.push(cur);
                cur = Vec::new();
            }
        } else {
            if cur.len() == 0 {
                assert(now.len() < 2 || is_space(now[now.len() - 2]));
            } else {
                assert(now[now.len() - 2] == s@[i - 1]);
            }
            cur.push(c);
        }
        i = i + 1;
    }
    assert(s@.subrange(0, s.len() as int) =~= s@);
    if cur.len() > 0 {
        r.push(cur);
    }
    r
}

/// `s` without its backslash-`t` pairs (taken left to right).
pub open spec fn spec_drop_escaped_tabs(s: Seq<char>) -> Seq<char>
    decreases s.len(),
{
    if s.len() < 2 {
        s
    } else if s[0] == '\\' && s[1] == 't' {
        spec_drop_escaped_tabs(s.subrange(2, s.len() as int))
    } else {
        seq![s[0]] + spec_drop_escaped_tabs(s.subrange(1, s.len() as int))
    }
}

/// `s` without tab characters.
pub open spec fn spec_drop_tabs(s: Seq<char>) -> Seq<char>
    decreases s.len(),
{
    if s.len() == 0 {
        s
    } else if s.last() == '\t' {
        spec_drop_tabs(s.drop_last())
    } else {
        spec_drop_tabs(s.drop_last()).push(s.last())
    }
}

/// The non-blank lines of a grid string, each cleaned of escaped and real
/// tabs and ended by a line feed.
pub open spec fn spec_prettify(lines: Seq<Seq<char>>) -> Seq<char>
    decreases lines.len(),
{
    if lines.len() == 0 {
        Seq::empty()
    } else {
        spec_prettify(lines.drop_last()) + spec_drop_tabs(spec_drop_escaped_tabs(lines.last())) + seq!['\n']
    }
}

fn drop_escaped_tabs(s: &Vec<char>) -> (r: Vec<char>)
    ensures
        r@ == spec_drop_escaped_tabs(s@),
{
    let mut r: Vec<char> = Vec::new();
    let mut i: usize = 0;
    assert(s@.subrange(0, s@.len() as int) =~= s@);
    assert(r@ + spec_drop_escaped_tabs(s@) =~= spec_drop_escaped_tabs(s@));
    while i < s.len()
        invariant
            i <= s@.len(),
            r@ + spec_drop_escaped_tabs(s@.subrange(i as int, s@.len() as int)) == spec_drop_escaped_tabs(s@),
        decreases s@.len() - i,
    {
        let ghost rest = s@.subrange(i as int, s@.len() as int);
        if i + 1 < s.len() && s[i] == '\\' && s[i + 1] == 't' {
            assert(rest.subrange(2, rest.len() as int) =~= s@.subrange(i + 2, s@.len() as int));
            i = i + 2;
        } else {
            let ghost before = r@;
            r.push(s[i]);
            proof {
                if rest.len() >= 2 {
                    assert(rest.subrange(1, rest.len() as int) =~= s@.subrange(i + 1, s@.len() as int));
                } else {
                    assert(rest =~= seq![s@[i as int]]);
                    assert(s@.subrange(i + 1, s@.len() as int) =~= Seq::<char>::empty());
                }
            }
            assert(r@ + spec_drop_escaped_tabs(s@.subrange(i + 1, s@.len() as int)) =~= before + spec_drop_escaped_tabs(rest));
            i = i + 1;
        }
    }
    assert(s@.subrange(i as int, s@.len() as int) =~= Seq::<char>::empty());
    assert(r@ + Seq::<char>::empty() =~= r@);
    r
}

fn drop_tabs(s: &Vec<char>) -> (r: Vec<char>)
    ensures
        r@ == spec_drop_tabs(s@),
{
    let mut r: Vec<char> = Vec::new();
    let mut i: usize = 0;
    while i < s.len()
        invariant
            i <= s@.len(),
            r@ == spec_drop_tabs(s@.subrange(0, i as int)),
        decreases s@.len() - i,
    {
        assert(s@.subrange(0, i + 1).drop_last() =~= s@.subrange(0, i as int));
        if s[i] != '\t' {
            r.push(s[i]);
        }
        i = i + 1;
    }
    assert(s@.subrange(0, s@.len() as int) =~= s@);
    r
}

/// `l` without one trailing carriage return.
pub open spec fn spec_strip_cr(l: Seq<char>) -> Seq<char> {
    if l.len() > 0 && l.last() == '\r' {
        l.drop_last()
    } else {
        l
    }
}

/// The lines of `s` as `str::lines` gives them: split at line feeds, with
/// the carriage return before a line feed dropped (a last, empty piece is
/// blank and never kept below).
pub open spec fn spec_lines(s: Seq<char>) -> Seq<Seq<char>> {
    let ls = spec_split(s, '\n');
    Seq::new(ls.len(), |i: int| if i < ls.len() - 1 { spec_strip_cr(ls[i]) } else { ls[i] })
}

/// Drops the blank lines of a grid string and the tabs (real or written as
/// backslash-`t`) of the others; every kept line ends with a line feed.
pub fn prettify_layer_string(s: String) -> (r: String)
    ensures
        r@ == spec_prettify(crate::layer::spec_nonblank(spec_lines(s@))),
{
    let cs = chars_of(s.as_str());
    let lines = split_chars(&cs, '\n');
    let ghost ls = spec_lines(cs@);
    let mut out: Vec<char> = Vec::new();
    let mut kept: Ghost<Seq<Seq<char>>> = Ghost(Seq::empty());
    let mut i: usize = 0;
    while i < lines.len()
        invariant
            i <= lines@.len(),
            lines@.len() == ls.len(),
            ls == spec_lines(cs@),
            forall|j: int| 0 <= j < lines@.len() ==> #[trigger] lines@[j]@ == spec_split(cs@, '\n')[j],
            kept@ == crate::layer::spec_nonblank(ls.subrange(0, i as int)),
            out@ == spec_prettify(kept@),
        decreases lines@.len() - i,
    {
        assert(ls.subrange(0, i + 1).drop_last() =~= ls.subrange(0, i as int));
        let mut line = crate::text::copy_chars(&lines[i]);
        if i + 1 < lines.len() && line.len() > 0 && line[line.len() - 1] == '\r' {
            line.pop();
        }
        assert(line@ == ls[i as int]);
        if !blank(&line) {
            let clean = drop_tabs(&drop_escaped_tabs(&line));
            let mut piece = clean;
            piece.push('\n');
            let ghost before = kept@;
            out.append(&mut piece);
            kept = Ghost(before.push(ls[i as int]));
            assert(kept@.drop_last() =~= before);
        }
        i = i + 1;
    }
    assert(ls.subrange(0, lines@.len() as int) =~= ls);
    string_from_chars(&out)
}

} // verus!
