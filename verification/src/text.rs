//! Character classes and small scanning primitives used by the
//! parsers: whitespace, hex and decimal digits, trimming, searching
//! for a character, and splitting text on a separator or into lines.

use vstd::prelude::*;

verus! {

/// The Unicode whitespace characters, as the grammar understands them.
pub open spec fn is_ws_char(c: char) -> bool {
    let u = c as u32;
    u == 0x09 || u == 0x0A || u == 0x0B || u == 0x0C || u == 0x0D || u == 0x20 || u == 0x85
        || u == 0xA0 || u == 0x1680 || (0x2000 <= u && u <= 0x200A) || u == 0x2028 || u == 0x2029
        || u == 0x202F || u == 0x205F || u == 0x3000
}

/// Whitespace test on a single character.
pub fn is_ws(c: char) -> (r: bool)
    ensures
        r == is_ws_char(c),
{
    let u = c as u32;
    u == 0x09 || u == 0x0A || u == 0x0B || u == 0x0C || u == 0x0D || u == 0x20 || u == 0x85
        || u == 0xA0 || u == 0x1680 || (0x2000 <= u && u <= 0x200A) || u == 0x2028 || u == 0x2029
        || u == 0x202F || u == 0x205F || u == 0x3000
}

/// Hexadecimal digits, either case.
pub open spec fn is_hex_digit_char(c: char) -> bool {
    let u = c as u32;
    (0x30 <= u && u <= 0x39) || (0x61 <= u && u <= 0x66) || (0x41 <= u && u <= 0x46)
}

/// The value of a hexadecimal digit.
pub open spec fn hex_digit_val(c: char) -> u8 {
    let u = c as u32;
    if 0x30 <= u && u <= 0x39 {
        (u - 0x30) as u8
    } else if 0x61 <= u && u <= 0x66 {
        (u - 0x61 + 10) as u8
    } else {
        (u - 0x41 + 10) as u8
    }
}

/// Hexadecimal digit test.
pub fn is_hex_digit(c: char) -> (r: bool)
    ensures
        r == is_hex_digit_char(c),
{
    let u = c as u32;
    (0x30 <= u && u <= 0x39) || (0x61 <= u && u <= 0x66) || (0x41 <= u && u <= 0x46)
}

/// The value of a hexadecimal digit.
pub fn hex_digit(c: char) -> (r: u8)
    requires
        is_hex_digit_char(c),
    ensures
        r == hex_digit_val(c),
        r < 16,
{
    let u = c as u32;
    if 0x30 <= u && u <= 0x39 {
        (u - 0x30) as u8
    } else if 0x61 <= u && u <= 0x66 {
        (u - 0x61 + 10) as u8
    } else {
        (u - 0x41 + 10) as u8
    }
}

/// Decimal digits.
pub open spec fn is_dec_digit_char(c: char) -> bool {
    0x30 <= c as u32 && c as u32 <= 0x39
}

/// The value of a decimal digit.
pub open spec fn dec_digit_val(c: char) -> u8 {
    (c as u32 - 0x30) as u8
}

/// Decimal digit test.
pub fn is_dec_digit(c: char) -> (r: bool)
    ensures
        r == is_dec_digit_char(c),
{
    let u = c as u32;
    0x30 <= u && u <= 0x39
}

/// The value of a decimal digit.
pub fn dec_digit(c: char) -> (r: u8)
    requires
        is_dec_digit_char(c),
    ensures
        r == dec_digit_val(c),
        r < 10,
{
    (c as u32 - 0x30) as u8
}

/// The numeric value of a sequence of decimal digits, most
/// significant first.
pub open spec fn dec_val(s: Seq<char>) -> nat
    decreases s.len(),
{
    if s.len() == 0 {
        0
    } else {
        dec_val(s.drop_last()) * 10 + dec_digit_val(s.last()) as nat
    }
}

/// A longer run of digits never has a smaller value: the value of a
/// prefix bounds the value of the whole from below.
pub proof fn lemma_dec_val_prefix_le(s: Seq<char>, m: int)
    requires
        0 <= m <= s.len(),
    ensures
        dec_val(s.take(m)) <= dec_val(s),
    decreases s.len() - m,
{
    if m == s.len() {
        assert(s.take(m) =~= s);
    } else {
        lemma_dec_val_prefix_le(s, m + 1);
        assert(s.take(m + 1).drop_last() =~= s.take(m));
        assert(dec_val(s.take(m)) <= dec_val(s.take(m + 1)));
    }
}

/// The index of the first occurrence of `c` in `s`, if any.
pub open spec fn first_index_of(s: Seq<char>, c: char) -> Option<int>
    decreases s.len(),
{
    if s.len() == 0 {
        None
    } else if s[0] == c {
        Some(0int)
    } else {
        match first_index_of(s.drop_first(), c) {
            None => None,
            Some(i) => Some(i + 1),
        }
    }
}

/// `first_index_of` finds `c` exactly when it occurs, and finds its
/// first occurrence.
pub proof fn lemma_first_index_of(s: Seq<char>, c: char)
    ensures
        match first_index_of(s, c) {
            None => forall|k: int| 0 <= k < s.len() ==> s[k] != c,
            Some(i) => 0 <= i < s.len() && s[i] == c && forall|k: int| 0 <= k < i ==> s[k] != c,
        },
    decreases s.len(),
{
    if s.len() == 0 {
    } else if s[0] == c {
    } else {
        lemma_first_index_of(s.drop_first(), c);
        match first_index_of(s.drop_first(), c) {
            None => {
                assert(forall|k: int| 0 <= k < s.len() ==> s[k] != c) by {
                    assert(forall|k: int| 1 <= k < s.len() ==> s[k] == s.drop_first()[k - 1]);
                }
            },
            Some(i) => {
                assert(s[i + 1] == s.drop_first()[i]);
                assert(forall|k: int| 1 <= k < i + 1 ==> s[k] == s.drop_first()[k - 1]);
            },
        }
    }
}

/// Find the first occurrence of `c` in `s`.
pub fn find_char(s: &str, c: char) -> (r: Option<usize>)
    ensures
        match r {
            Some(i) => first_index_of(s@, c) == Some(i as int),
            None => first_index_of(s@, c) is None,
        },
{
    let n = s.unicode_len();
    let mut i: usize = 0;
    while i < n
        invariant
            0 <= i <= n,
            n == s@.len(),
            forall|k: int| 0 <= k < i ==> s@[k] != c,
        decreases n - i,
    {
        if s.get_char(i) == c {
            proof {
                lemma_first_index_of(s@, c);
            }
            return Some(i);
        }
        i += 1;
    }
    proof {
        lemma_first_index_of(s@, c);
    }
    None
}

/// How many whitespace characters `s` begins with.
pub open spec fn ws_prefix_len(s: Seq<char>) -> nat
    decreases s.len(),
{
    if s.len() == 0 || !is_ws_char(s[0]) {
        0
    } else {
        1 + ws_prefix_len(s.drop_first())
    }
}

/// How many whitespace characters `s` ends with.
pub open spec fn ws_suffix_len(s: Seq<char>) -> nat
    decreases s.len(),
{
    if s.len() == 0 || !is_ws_char(s.last()) {
        0
    } else {
        1 + ws_suffix_len(s.drop_last())
    }
}

/// `s` with surrounding whitespace removed.
pub open spec fn trim_of(s: Seq<char>) -> Seq<char> {
    if ws_prefix_len(s) == s.len() {
        Seq::empty()
    } else {
        s.subrange(ws_prefix_len(s) as int, s.len() - ws_suffix_len(s))
    }
}

pub proof fn lemma_ws_prefix(s: Seq<char>)
    ensures
        ws_prefix_len(s) <= s.len(),
        forall|k: int| 0 <= k < ws_prefix_len(s) ==> is_ws_char(s[k]),
        ws_prefix_len(s) < s.len() ==> !is_ws_char(s[ws_prefix_len(s) as int]),
    decreases s.len(),
{
    if s.len() == 0 || !is_ws_char(s[0]) {
    } else {
        lemma_ws_prefix(s.drop_first());
        let p = ws_prefix_len(s.drop_first());
        assert(forall|k: int| 1 <= k < s.len() ==> s[k] == s.drop_first()[k - 1]);
        assert(forall|k: int| 0 <= k < ws_prefix_len(s) ==> is_ws_char(s[k]));
    }
}

pub proof fn lemma_ws_suffix(s: Seq<char>)
    ensures
        ws_suffix_len(s) <= s.len(),
        forall|k: int| s.len() - ws_suffix_len(s) <= k < s.len() ==> is_ws_char(s[k]),
        ws_suffix_len(s) < s.len() ==> !is_ws_char(s[s.len() - ws_suffix_len(s) - 1]),
    decreases s.len(),
{
    if s.len() == 0 || !is_ws_char(s.last()) {
    } else {
        lemma_ws_suffix(s.drop_last());
        assert(forall|k: int| 0 <= k < s.len() - 1 ==> s[k] == s.drop_last()[k]);
    }
}

/// Remove surrounding whitespace.
pub fn trim<'a>(s: &'a str) -> (r: &'a str)
    ensures
        r@ == trim_of(s@),
{
    let n = s.unicode_len();
    let mut i: usize = 0;
    while i < n && is_ws(s.get_char(i))
        invariant
            0 <= i <= n,
            n == s@.len(),
            forall|k: int| 0 <= k < i ==> is_ws_char(s@[k]),
        decreases n - i,
    {
        i += 1;
    }
    proof {
        lemma_ws_prefix(s@);
    }
    if i == n {
        let r = s.substring_char(n, n);
        proof {
            assert(ws_prefix_len(s@) == s@.len());
            assert(r@ =~= trim_of(s@));
        }
        return r;
    }
    // i is the first non-whitespace index, so i == ws_prefix_len(s@)
    assert(i == ws_prefix_len(s@));
    let mut j: usize = n;
    while is_ws(s.get_char(j - 1))
        invariant
            i < j <= n,
            n == s@.len(),
            !is_ws_char(s@[i as int]),
            forall|k: int| j <= k < n ==> is_ws_char(s@[k]),
        decreases j,
    {
        j -= 1;
    }
    proof {
        lemma_ws_suffix(s@);
        let q = ws_suffix_len(s@);
        // q == n - j: both count the maximal whitespace suffix
        if q > n - j {
            assert(is_ws_char(s@[j - 1]));
        }
        if q < n - j {
            assert(is_ws_char(s@[n - q - 1]));
        }
        assert(q == n - j);
    }
    let r = s.substring_char(i, j);
    proof {
        assert(r@ =~= trim_of(s@));
    }
    r
}

/// The segments of `s` between occurrences of `sep`; always at least
/// one segment, and `sep` itself appears in none of them.
pub open spec fn split_on(s: Seq<char>, sep: char) -> Seq<Seq<char>>
    decreases s.len(),
{
    if s.len() == 0 {
        seq![Seq::<char>::empty()]
    } else if s[0] == sep {
        seq![Seq::<char>::empty()] + split_on(s.drop_first(), sep)
    } else {
        let r = split_on(s.drop_first(), sep);
        seq![seq![s[0]] + r[0]] + r.drop_first()
    }
}

pub proof fn lemma_split_on_len(s: Seq<char>, sep: char)
    ensures
        split_on(s, sep).len() >= 1,
    decreases s.len(),
{
    if s.len() == 0 {
    } else {
        lemma_split_on_len(s.drop_first(), sep);
    }
}

/// If the first occurrence of `sep` is at `m`, splitting takes the
/// prefix up to `m` and continues after it.
pub proof fn lemma_split_on_first(s: Seq<char>, sep: char, m: int)
    requires
        0 <= m < s.len(),
        s[m] == sep,
        forall|k: int| 0 <= k < m ==> s[k] != sep,
    ensures
        split_on(s, sep) =~= seq![s.take(m)] + split_on(s.skip(m + 1), sep),
    decreases m,
{
    lemma_split_on_len(s.drop_first(), sep);
    if m == 0 {
        assert(s.take(0) =~= Seq::<char>::empty());
        assert(s.skip(1) =~= s.drop_first());
    } else {
        assert(s.drop_first()[m - 1] == sep);
        assert(forall|k: int| 0 <= k < m - 1 ==> s.drop_first()[k] != sep);
        lemma_split_on_first(s.drop_first(), sep, m - 1);
        let r = split_on(s.drop_first(), sep);
        assert(r[0] == s.drop_first().take(m - 1));
        assert(seq![s[0]] + r[0] =~= s.take(m));
        assert(s.drop_first().skip(m) =~= s.skip(m + 1));
        assert(r.drop_first() =~= split_on(s.skip(m + 1), sep));
    }
}

/// If `sep` does not occur, the only segment is `s` itself.
pub proof fn lemma_split_on_none(s: Seq<char>, sep: char)
    requires
        forall|k: int| 0 <= k < s.len() ==> s[k] != sep,
    ensures
        split_on(s, sep) =~= seq![s],
    decreases s.len(),
{
    if s.len() == 0 {
        assert(split_on(s, sep) =~= seq![Seq::<char>::empty()]);
        assert(s =~= Seq::<char>::empty());
    } else {
        assert(forall|k: int|
            0 <= k < s.drop_first().len() ==> s.drop_first()[k] != sep);
        lemma_split_on_none(s.drop_first(), sep);
        let r = split_on(s.drop_first(), sep);
        assert(seq![s[0]] + r[0] =~= s);
        assert(r.drop_first() =~= Seq::<Seq<char>>::empty());
    }
}

/// The views of a vector of strings.
pub open spec fn views_of(v: Seq<String>) -> Seq<Seq<char>> {
    v.map_values(|t: String| t@)
}

/// Split `s` at every occurrence of `sep`.
pub fn split_char(s: &str, sep: char) -> (parts: Vec<String>)
    ensures
        views_of(parts@) == split_on(s@, sep),
{
    let n = s.unicode_len();
    let mut parts: Vec<String> = Vec::new();
    let mut start: usize = 0;
    let mut i: usize = 0;
    proof {
        assert(s@.skip(0) =~= s@);
        assert(views_of(parts@) =~= Seq::<Seq<char>>::empty());
        assert(split_on(s@, sep) =~= views_of(parts@) + split_on(s@.skip(0), sep));
    }
    while i < n
        invariant
            0 <= start <= i <= n,
            n == s@.len(),
            split_on(s@, sep) =~= views_of(parts@) + split_on(s@.skip(start as int), sep),
            forall|k: int| start <= k < i ==> s@[k] != sep,
        decreases n - i,
    {
        if s.get_char(i) == sep {
            let piece = s.substring_char(start, i).to_owned();
            proof {
                let t = s@.skip(start as int);
                assert(forall|k: int| 0 <= k < i - start ==> t[k] == s@[k + start]);
                lemma_split_on_first(t, sep, i - start);
                assert(t.take(i - start) =~= s@.subrange(start as int, i as int));
                assert(t.skip(i - start + 1) =~= s@.skip(i + 1));
                assert(views_of(parts@.push(piece)) =~= views_of(parts@) + seq![piece@]);
            }
            parts.push(piece);
            start = i + 1;
        }
        i += 1;
    }
    let piece = s.substring_char(start, n).to_owned();
    proof {
        let t = s@.skip(start as int);
        assert(forall|k: int| 0 <= k < t.len() ==> t[k] == s@[k + start]);
        lemma_split_on_none(t, sep);
        assert(t =~= s@.subrange(start as int, n as int));
        assert(views_of(parts@.push(piece)) =~= views_of(parts@) + seq![piece@]);
    }
    parts.push(piece);
    parts
}

/// A line terminated by a newline loses one trailing carriage return.
pub open spec fn strip_cr(l: Seq<char>) -> Seq<char> {
    if l.len() > 0 && l.last() == '\r' {
        l.drop_last()
    } else {
        l
    }
}

/// The lines of `s`: segments between newlines, each
/// newline-terminated segment stripped of one trailing carriage
/// return, and without the empty segment after a final newline.
pub open spec fn spec_lines(s: Seq<char>) -> Seq<Seq<char>> {
    let segs = split_on(s, '\n');
    let init = segs.drop_last().map_values(|l: Seq<char>| strip_cr(l));
    if segs.last().len() == 0 {
        init
    } else {
        init.push(segs.last())
    }
}

/// Split `s` into its lines.
pub fn split_lines(s: &str) -> (lines: Vec<String>)
    ensures
        views_of(lines@) == spec_lines(s@),
{
    let segs = split_char(s, '\n');
    proof {
        lemma_split_on_len(s@, '\n');
    }
    let m = segs.len();
    let mut lines: Vec<String> = Vec::new();
    let mut i: usize = 0;
    while i < m - 1
        invariant
            0 <= i <= m - 1,
            m == segs@.len() >= 1,
            views_of(segs@) == split_on(s@, '\n'),
            views_of(lines@) =~= views_of(segs@).drop_last().map_values(
                |l: Seq<char>| strip_cr(l),
            ).take(i as int),
        decreases m - 1 - i,
    {
        let seg = &segs[i];
        let sl = seg.as_str();
        let ln = sl.unicode_len();
        let stripped: String = if ln > 0 && sl.get_char(ln - 1) == '\r' {
            sl.substring_char(0, ln - 1).to_owned()
        } else {
            seg.clone()
        };
        proof {
            let f = |l: Seq<char>| strip_cr(l);
            let vs = views_of(segs@);
            let base = vs.drop_last().map_values(f);
            assert(vs.drop_last()[i as int] == segs@[i as int]@);
            assert(base[i as int] == f(segs@[i as int]@));
            assert(stripped@ =~= strip_cr(segs@[i as int]@));
            assert(views_of(lines@.push(stripped)) =~= views_of(lines@).push(stripped@));
            assert(views_of(lines@.push(stripped)) =~= base.take(i + 1));
        }
        lines.push(stripped);
        i += 1;
    }
    let last = &segs[m - 1];
    let lastln = last.as_str().unicode_len();
    proof {
        let f = |l: Seq<char>| strip_cr(l);
        let base = views_of(segs@).drop_last().map_values(f);
        assert(views_of(lines@) =~= base);
    }
    if lastln > 0 {
        let piece = last.clone();
        proof {
            let f = |l: Seq<char>| strip_cr(l);
            let base = views_of(segs@).drop_last().map_values(f);
            assert(views_of(lines@.push(piece)) =~= base.push(segs@.last()@));
            assert(views_of(lines@.push(piece)) =~= spec_lines(s@));
        }
        lines.push(piece);
    } else {
        proof {
            assert(views_of(lines@) =~= spec_lines(s@));
        }
    }
    lines
}

/// The index of the first empty line, if any.
pub open spec fn first_empty_of(lines: Seq<Seq<char>>) -> Option<int>
    decreases lines.len(),
{
    if lines.len() == 0 {
        None
    } else if lines[0].len() == 0 {
        Some(0int)
    } else {
        match first_empty_of(lines.drop_first()) {
            None => None,
            Some(i) => Some(i + 1),
        }
    }
}

/// `first_empty_of` finds an empty line exactly when one occurs, and
/// finds the first one.
pub proof fn lemma_first_empty_of(lines: Seq<Seq<char>>)
    ensures
        match first_empty_of(lines) {
            None => forall|k: int| 0 <= k < lines.len() ==> lines[k].len() != 0,
            Some(i) => 0 <= i < lines.len() && lines[i].len() == 0 && forall|k: int|
                0 <= k < i ==> lines[k].len() != 0,
        },
    decreases lines.len(),
{
    if lines.len() == 0 {
    } else if lines[0].len() == 0 {
    } else {
        lemma_first_empty_of(lines.drop_first());
        assert(forall|k: int|
            1 <= k < lines.len() ==> lines[k] == lines.drop_first()[k - 1]);
    }
}

/// A forward-only cursor over the lines of one input text, handed
/// from the palette stage to the grid stage.
pub struct LineCursor {
    pub lines: Vec<String>,
    pub pos: usize,
}

impl LineCursor {
    /// The cursor points into its line vector.
    pub open spec fn wf(self) -> bool {
        self.pos <= self.lines@.len()
    }

    /// The lines not yet consumed.
    pub open spec fn remaining(self) -> Seq<Seq<char>> {
        views_of(self.lines@).skip(self.pos as int)
    }

    /// A cursor at the start of the lines of `s`.
    pub fn from_text(s: &str) -> (c: LineCursor)
        ensures
            c.wf(),
            c.pos == 0,
            c.remaining() == spec_lines(s@),
    {
        let lines = split_lines(s);
        let c = LineCursor { lines, pos: 0 };
        proof {
            assert(c.remaining() =~= views_of(c.lines@));
        }
        c
    }
}

} // verus!
