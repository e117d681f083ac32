//! The indexed-PNG serializer: the palette stable-sorted by ascending
//! alpha, the transparency chunk for its leading non-opaque run, the
//! colour table, the row-major pixel indices, and the assembled
//! stream.

use vstd::prelude::*;

use crate::colour::Colour;
use crate::error::{Error, ErrorView};
use crate::image::Tep;
use crate::palette::{palette_wf, spec_get, ColourDefinition};

verus! {

/// The entries whose alpha channel is exactly `a`.
pub open spec fn with_alpha(a: int) -> spec_fn(ColourDefinition) -> bool {
    |d: ColourDefinition| d.colour.a == a
}

/// The entries of alpha below `a`, in order of alpha and, within one
/// alpha, in their original order.
pub open spec fn sort_up_to(s: Seq<ColourDefinition>, a: int) -> Seq<ColourDefinition>
    decreases a,
{
    if a <= 0 {
        Seq::empty()
    } else {
        sort_up_to(s, a - 1) + s.filter(with_alpha(a - 1))
    }
}

/// The palette stable-sorted by ascending alpha: transparent entries
/// first, opaque last, ties kept in their original order.
pub open spec fn spec_sorted(s: Seq<ColourDefinition>) -> Seq<ColourDefinition> {
    sort_up_to(s, 256)
}

proof fn lemma_filter_push(l: Seq<ColourDefinition>, d: ColourDefinition, pred: spec_fn(ColourDefinition) -> bool)
    ensures
        l.push(d).filter(pred) == if pred(d) {
            l.filter(pred).push(d)
        } else {
            l.filter(pred)
        },
{
    reveal_with_fuel(Seq::<_>::filter, 2);
    assert(l.push(d).drop_last() =~= l);
    assert(l.push(d).last() == d);
}

proof fn lemma_filter_empty(pred: spec_fn(ColourDefinition) -> bool)
    ensures
        Seq::<ColourDefinition>::empty().filter(pred) == Seq::<ColourDefinition>::empty(),
{
    reveal_with_fuel(Seq::<_>::filter, 1);
    assert(Seq::<ColourDefinition>::empty().filter(pred) =~= Seq::<ColourDefinition>::empty());
}

/// Stable sort of the palette by ascending alpha, as a counting sort
/// over the 256 possible alpha values.
pub fn sort_colours(colours: &Vec<ColourDefinition>) -> (r: Vec<ColourDefinition>)
    ensures
        r@ == spec_sorted(colours@),
{
    let ghost s = colours@;
    let mut out: Vec<ColourDefinition> = Vec::new();
    let mut a: u16 = 0;
    proof {
        assert(out@ =~= sort_up_to(s, 0));
    }
    while a < 256
        invariant
            a <= 256,
            s == colours@,
            out@ == sort_up_to(s, a as int),
        decreases 256 - a,
    {
        let ghost before = out@;
        let mut j: usize = 0;
        proof {
            lemma_filter_empty(with_alpha(a as int));
            assert(s.take(0) =~= Seq::<ColourDefinition>::empty());
            assert(out@ =~= before + s.take(0).filter(with_alpha(a as int)));
        }
        while j < colours.len()
            invariant
                0 <= j <= s.len(),
                a < 256,
                s == colours@,
                before == sort_up_to(s, a as int),
                out@ == before + s.take(j as int).filter(with_alpha(a as int)),
            decreases s.len() - j,
        {
            let d = colours[j];
            proof {
                assert(s.take(j as int + 1) =~= s.take(j as int).push(d));
                lemma_filter_push(s.take(j as int), d, with_alpha(a as int));
            }
            if d.colour.a as u16 == a {
                proof {
                    assert((before + s.take(j as int).filter(with_alpha(a as int))).push(d)
                        =~= before + s.take(j as int).filter(with_alpha(a as int)).push(d));
                }
                out.push(d);
            }
            j += 1;
        }
        proof {
            assert(s.take(s.len() as int) =~= s);
            assert(out@ == sort_up_to(s, a as int + 1));
        }
        a += 1;
    }
    out
}

// --- counting entries, to carry containment and uniqueness through the sort ---

/// How many entries satisfy `p`.
pub open spec fn count_matching(s: Seq<ColourDefinition>, p: spec_fn(ColourDefinition) -> bool) -> nat
    decreases s.len(),
{
    if s.len() == 0 {
        0
    } else {
        (if p(s[0]) {
            1nat
        } else {
            0nat
        }) + count_matching(s.drop_first(), p)
    }
}

/// The entries carrying identifier `c`.
pub open spec fn has_ident(c: char) -> spec_fn(ColourDefinition) -> bool {
    |d: ColourDefinition| d.ident == c
}

/// The entries equal to `d0`.
pub open spec fn is_def(d0: ColourDefinition) -> spec_fn(ColourDefinition) -> bool {
    |d: ColourDefinition| d == d0
}

/// All entries.
pub open spec fn any_def() -> spec_fn(ColourDefinition) -> bool {
    |d: ColourDefinition| true
}

/// The entries satisfying `p` with alpha below `a`.
pub open spec fn p_alpha_lt(p: spec_fn(ColourDefinition) -> bool, a: int) -> spec_fn(ColourDefinition) -> bool {
    |d: ColourDefinition| p(d) && d.colour.a < a
}

/// The entries satisfying both `p` and `q`.
pub open spec fn p_and(p: spec_fn(ColourDefinition) -> bool, q: spec_fn(ColourDefinition) -> bool) -> spec_fn(ColourDefinition) -> bool {
    |d: ColourDefinition| p(d) && q(d)
}

proof fn lemma_count_concat(x: Seq<ColourDefinition>, y: Seq<ColourDefinition>, p: spec_fn(ColourDefinition) -> bool)
    ensures
        count_matching(x + y, p) == count_matching(x, p) + count_matching(y, p),
    decreases x.len(),
{
    if x.len() == 0 {
        assert(x + y =~= y);
    } else {
        assert((x + y)[0] == x[0]);
        assert((x + y).drop_first() =~= x.drop_first() + y);
        lemma_count_concat(x.drop_first(), y, p);
    }
}

proof fn lemma_count_push(x: Seq<ColourDefinition>, e: ColourDefinition, p: spec_fn(ColourDefinition) -> bool)
    ensures
        count_matching(x.push(e), p) == count_matching(x, p) + if p(e) {
            1nat
        } else {
            0nat
        },
{
    reveal_with_fuel(Seq::<_>::filter, 1);
    assert(x.push(e) =~= x + seq![e]);
    lemma_count_concat(x, seq![e], p);
    assert(seq![e].drop_first() =~= Seq::<ColourDefinition>::empty());
    assert(count_matching(seq![e].drop_first(), p) == 0);
    assert(count_matching(seq![e], p) == if p(e) {
        1nat
    } else {
        0nat
    });
}

proof fn lemma_count_filter(s: Seq<ColourDefinition>, p: spec_fn(ColourDefinition) -> bool, q: spec_fn(ColourDefinition) -> bool)
    ensures
        count_matching(s.filter(q), p) == count_matching(s, p_and(p, q)),
    decreases s.len(),
{
    if s.len() == 0 {
        lemma_filter_empty(q);
    } else {
        let s0 = s.drop_last();
        lemma_count_filter(s0, p, q);
        assert(s0.push(s.last()) =~= s);
        lemma_filter_push(s0, s.last(), q);
        lemma_count_push(s0, s.last(), p_and(p, q));
        if q(s.last()) {
            lemma_count_push(s0.filter(q), s.last(), p);
        }
    }
}

proof fn lemma_count_ext(s: Seq<ColourDefinition>, p1: spec_fn(ColourDefinition) -> bool, p2: spec_fn(ColourDefinition) -> bool)
    requires
        forall|d: ColourDefinition| #[trigger] p1(d) == p2(d),
    ensures
        count_matching(s, p1) == count_matching(s, p2),
    decreases s.len(),
{
    if s.len() > 0 {
        lemma_count_ext(s.drop_first(), p1, p2);
    }
}

proof fn lemma_count_split(s: Seq<ColourDefinition>, p1: spec_fn(ColourDefinition) -> bool, p2: spec_fn(ColourDefinition) -> bool, p3: spec_fn(ColourDefinition) -> bool)
    requires
        forall|d: ColourDefinition| #[trigger] p3(d) == (p1(d) || p2(d)),
        forall|d: ColourDefinition| !(#[trigger] p1(d) && p2(d)),
    ensures
        count_matching(s, p3) == count_matching(s, p1) + count_matching(s, p2),
    decreases s.len(),
{
    if s.len() > 0 {
        lemma_count_split(s.drop_first(), p1, p2, p3);
        assert(p3(s[0]) == (p1(s[0]) || p2(s[0])));
        assert(!(p1(s[0]) && p2(s[0])));
    }
}

/// Sorting neither loses nor invents entries: any count of matching
/// entries is preserved.
pub proof fn lemma_sorted_count(s: Seq<ColourDefinition>, p: spec_fn(ColourDefinition) -> bool)
    ensures
        count_matching(spec_sorted(s), p) == count_matching(s, p),
{
    lemma_sort_up_to_count(s, p, 256);
    lemma_count_ext(s, p_alpha_lt(p, 256), p);
}

proof fn lemma_sort_up_to_count(s: Seq<ColourDefinition>, p: spec_fn(ColourDefinition) -> bool, a: int)
    requires
        0 <= a,
    ensures
        count_matching(sort_up_to(s, a), p) == count_matching(s, p_alpha_lt(p, a)),
    decreases a,
{
    if a == 0 {
        assert(count_matching(sort_up_to(s, 0), p) == 0);
        lemma_count_none(s, p_alpha_lt(p, 0));
    } else {
        lemma_sort_up_to_count(s, p, a - 1);
        lemma_count_concat(sort_up_to(s, a - 1), s.filter(with_alpha(a - 1)), p);
        lemma_count_filter(s, p, with_alpha(a - 1));
        lemma_count_split(s, p_alpha_lt(p, a - 1), p_and(p, with_alpha(a - 1)), p_alpha_lt(p, a));
    }
}

proof fn lemma_count_none(s: Seq<ColourDefinition>, p: spec_fn(ColourDefinition) -> bool)
    requires
        forall|d: ColourDefinition| !(#[trigger] p(d)),
    ensures
        count_matching(s, p) == 0,
    decreases s.len(),
{
    if s.len() > 0 {
        lemma_count_none(s.drop_first(), p);
    }
}

proof fn lemma_count_all(s: Seq<ColourDefinition>)
    ensures
        count_matching(s, any_def()) == s.len(),
    decreases s.len(),
{
    if s.len() > 0 {
        lemma_count_all(s.drop_first());
    }
}

/// Sorting preserves the number of entries.
pub proof fn lemma_sorted_len(s: Seq<ColourDefinition>)
    ensures
        spec_sorted(s).len() == s.len(),
{
    lemma_sorted_count(s, any_def());
    lemma_count_all(s);
    lemma_count_all(spec_sorted(s));
}

proof fn lemma_count_pos(s: Seq<ColourDefinition>, p: spec_fn(ColourDefinition) -> bool)
    ensures
        (count_matching(s, p) > 0) <==> (exists|k: int| 0 <= k < s.len() && p(#[trigger] s[k])),
    decreases s.len(),
{
    if s.len() == 0 {
    } else {
        lemma_count_pos(s.drop_first(), p);
        if p(s[0]) {
        } else {
            if exists|k: int| 0 <= k < s.len() && p(#[trigger] s[k]) {
                let k = choose|k: int| 0 <= k < s.len() && p(#[trigger] s[k]);
                assert(k >= 1);
                assert(p(s.drop_first()[k - 1]));
            }
            if count_matching(s, p) > 0 {
                let k = choose|k: int|
                    0 <= k < s.drop_first().len() && p(#[trigger] s.drop_first()[k]);
                assert(p(s[k + 1]));
            }
        }
    }
}

proof fn lemma_count_two(s: Seq<ColourDefinition>, p: spec_fn(ColourDefinition) -> bool, i: int, j: int)
    requires
        0 <= i < j < s.len(),
        p(s[i]),
        p(s[j]),
    ensures
        count_matching(s, p) >= 2,
    decreases s.len(),
{
    if i == 0 {
        lemma_count_pos(s.drop_first(), p);
        assert(p(s.drop_first()[j - 1]));
    } else {
        lemma_count_two(s.drop_first(), p, i - 1, j - 1);
        assert(p(s.drop_first()[i - 1]));
        assert(p(s.drop_first()[j - 1]));
    }
}

proof fn lemma_count_two_exists(s: Seq<ColourDefinition>, p: spec_fn(ColourDefinition) -> bool)
    requires
        count_matching(s, p) >= 2,
    ensures
        exists|i: int, j: int| 0 <= i < j < s.len() && p(#[trigger] s[i]) && p(#[trigger] s[j]),
    decreases s.len(),
{
    if p(s[0]) {
        lemma_count_pos(s.drop_first(), p);
        let k = choose|k: int| 0 <= k < s.drop_first().len() && p(#[trigger] s.drop_first()[k]);
        assert(p(s[k + 1]));
        assert(p(s[0]) && p(s[k + 1]));
    } else {
        lemma_count_two_exists(s.drop_first(), p);
        let (i, j) = choose|i: int, j: int|
            0 <= i < j < s.drop_first().len() && p(#[trigger] s.drop_first()[i]) && p(
                #[trigger] s.drop_first()[j],
            );
        assert(p(s[i + 1]) && p(s[j + 1]));
    }
}

/// A well-formed palette holds each identifier at most once.
pub proof fn lemma_wf_ident_count(defs: Seq<ColourDefinition>, c: char)
    requires
        palette_wf(defs),
    ensures
        count_matching(defs, has_ident(c)) <= 1,
{
    if count_matching(defs, has_ident(c)) >= 2 {
        lemma_count_two_exists(defs, has_ident(c));
        let (i, j) = choose|i: int, j: int|
            0 <= i < j < defs.len() && has_ident(c)(#[trigger] defs[i]) && has_ident(c)(
                #[trigger] defs[j],
            );
        assert(defs[i].ident == defs[j].ident);
    }
}

// --- sortedness of the sorted palette ---

/// The sorted palette's alpha channels never decrease.
pub proof fn lemma_sorted_alpha(s: Seq<ColourDefinition>)
    ensures
        forall|i: int, j: int|
            0 <= i <= j < spec_sorted(s).len() ==> (#[trigger] spec_sorted(s)[i]).colour.a <= (
            #[trigger] spec_sorted(s)[j]).colour.a,
{
    lemma_sort_up_to_alpha(s, 256);
}

proof fn lemma_sort_up_to_alpha(s: Seq<ColourDefinition>, a: int)
    requires
        0 <= a,
    ensures
        forall|k: int|
            0 <= k < sort_up_to(s, a).len() ==> (#[trigger] sort_up_to(s, a)[k]).colour.a < a,
        forall|i: int, j: int|
            0 <= i <= j < sort_up_to(s, a).len() ==> (#[trigger] sort_up_to(s, a)[i]).colour.a
                <= (#[trigger] sort_up_to(s, a)[j]).colour.a,
    decreases a,
{
    if a > 0 {
        lemma_sort_up_to_alpha(s, a - 1);
        let prev = sort_up_to(s, a - 1);
        let bucket = s.filter(with_alpha(a - 1));
        assert forall|k: int| 0 <= k < bucket.len() implies (#[trigger] bucket[k]).colour.a == a
            - 1 by {
            Seq::lemma_filter_pred(s, with_alpha(a - 1), k);
        }
        assert(sort_up_to(s, a) == prev + bucket);
        assert(forall|k: int|
            0 <= k < prev.len() ==> sort_up_to(s, a)[k] == (#[trigger] prev[k]));
        assert(forall|k: int|
            prev.len() <= k < prev.len() + bucket.len() ==> (#[trigger] sort_up_to(s, a)[k])
                == bucket[k - prev.len()]);
    }
}

// --- the transparency chunk ---

/// How many entries precede the first fully-opaque one.
pub open spec fn first_opaque(s: Seq<ColourDefinition>) -> int
    decreases s.len(),
{
    if s.len() == 0 {
        0
    } else if s[0].colour.a == 255 {
        0
    } else {
        1 + first_opaque(s.drop_first())
    }
}

pub proof fn lemma_first_opaque(s: Seq<ColourDefinition>)
    ensures
        0 <= first_opaque(s) <= s.len(),
        forall|k: int| 0 <= k < first_opaque(s) ==> (#[trigger] s[k]).colour.a != 255,
        first_opaque(s) < s.len() ==> s[first_opaque(s)].colour.a == 255,
    decreases s.len(),
{
    if s.len() == 0 {
    } else if s[0].colour.a == 255 {
    } else {
        lemma_first_opaque(s.drop_first());
        assert(forall|k: int| 1 <= k < s.len() ==> s[k] == s.drop_first()[k - 1]);
    }
}

/// The transparency chunk: the alpha bytes of the leading run of
/// entries, stopping at the first fully-opaque one.
pub open spec fn spec_trns(s: Seq<ColourDefinition>) -> Seq<u8> {
    Seq::new(first_opaque(s) as nat, |i: int| s[i].colour.a)
}

/// The transparency chunk, or nothing when every entry is opaque.
pub open spec fn spec_trns_opt(s: Seq<ColourDefinition>) -> Option<Seq<u8>> {
    if spec_trns(s).len() == 0 {
        None
    } else {
        Some(spec_trns(s))
    }
}

// --- the colour table ---

/// The colour table: three bytes per entry, in order.
pub open spec fn spec_palette_bytes(s: Seq<ColourDefinition>) -> Seq<u8>
    decreases s.len(),
{
    if s.len() == 0 {
        Seq::empty()
    } else {
        spec_palette_bytes(s.drop_last()) + seq![
            s.last().colour.r,
            s.last().colour.g,
            s.last().colour.b,
        ]
    }
}

pub proof fn lemma_palette_bytes_index(s: Seq<ColourDefinition>, i: int)
    requires
        0 <= i < s.len(),
    ensures
        spec_palette_bytes(s).len() == 3 * s.len(),
        spec_palette_bytes(s)[3 * i] == s[i].colour.r,
        spec_palette_bytes(s)[3 * i + 1] == s[i].colour.g,
        spec_palette_bytes(s)[3 * i + 2] == s[i].colour.b,
    decreases s.len(),
{
    lemma_palette_bytes_len(s);
    if i < s.len() - 1 {
        lemma_palette_bytes_index(s.drop_last(), i);
        lemma_palette_bytes_len(s.drop_last());
    } else {
        lemma_palette_bytes_len(s.drop_last());
        assert(s.last() == s[i]);
    }
}

proof fn lemma_palette_bytes_len(s: Seq<ColourDefinition>)
    ensures
        spec_palette_bytes(s).len() == 3 * s.len(),
    decreases s.len(),
{
    if s.len() > 0 {
        lemma_palette_bytes_len(s.drop_last());
    }
}

// --- pixel indices ---

/// The position of the first entry carrying `ident`, if any.
pub open spec fn index_of_ident(s: Seq<ColourDefinition>, ident: char) -> Option<int>
    decreases s.len(),
{
    if s.len() == 0 {
        None
    } else if s[0].ident == ident {
        Some(0int)
    } else {
        match index_of_ident(s.drop_first(), ident) {
            None => None,
            Some(i) => Some(i + 1),
        }
    }
}

/// `index_of_ident` finds `ident` exactly when an entry carries it,
/// and finds the first such entry.
pub proof fn lemma_index_of_ident(s: Seq<ColourDefinition>, ident: char)
    ensures
        match index_of_ident(s, ident) {
            None => forall|k: int| 0 <= k < s.len() ==> (#[trigger] s[k]).ident != ident,
            Some(i) => 0 <= i < s.len() && s[i].ident == ident && forall|k: int|
                0 <= k < i ==> (#[trigger] s[k]).ident != ident,
        },
    decreases s.len(),
{
    if s.len() == 0 {
    } else if s[0].ident == ident {
    } else {
        lemma_index_of_ident(s.drop_first(), ident);
        assert(forall|k: int| 1 <= k < s.len() ==> s[k] == s.drop_first()[k - 1]);
    }
}

/// The pixel bytes: for each cell, the position of its identifier in
/// the sorted palette.
pub open spec fn spec_indices(sorted: Seq<ColourDefinition>, data: Seq<char>) -> Seq<u8> {
    Seq::new(data.len(), |i: int| index_of_ident(sorted, data[i])->Some_0 as u8)
}

/// Find the position of `ident` among the definitions.
fn colour_index(colours: &Vec<ColourDefinition>, ident: char) -> (r: Option<usize>)
    ensures
        match r {
            Some(i) => index_of_ident(colours@, ident) == Some(i as int),
            None => index_of_ident(colours@, ident) is None,
        },
{
    let mut i: usize = 0;
    proof {
        assert(colours@.skip(0) =~= colours@);
    }
    while i < colours.len()
        invariant
            0 <= i <= colours@.len(),
            forall|k: int| 0 <= k < i ==> (#[trigger] colours@[k]).ident != ident,
        decreases colours@.len() - i,
    {
        if colours[i].ident == ident {
            proof {
                lemma_index_of_ident(colours@, ident);
                match index_of_ident(colours@, ident) {
                    None => {
                        assert(colours@[i as int].ident == ident);
                    },
                    Some(m) => {
                        if m < i as int {
                            assert(colours@[m].ident != ident);
                        }
                        if m > i as int {
                            assert(colours@[i as int].ident != ident);
                        }
                    },
                }
            }
            return Some(i);
        }
        i += 1;
    }
    proof {
        lemma_index_of_ident(colours@, ident);
        if index_of_ident(colours@, ident) is Some {
            let m = index_of_ident(colours@, ident)->Some_0;
            assert(colours@[m].ident != ident);
        }
    }
    None
}

impl Tep {
    /// The transparency chunk of a sorted palette: one alpha byte per
    /// entry, stopping at the first fully-opaque one.
    pub fn trns(colours: &Vec<ColourDefinition>) -> (r: Vec<u8>)
        ensures
            r@ == spec_trns(colours@),
    {
        let ghost s = colours@;
        let mut alphas: Vec<u8> = Vec::new();
        let mut i: usize = 0;
        while i < colours.len()
            invariant_except_break
                0 <= i <= s.len(),
                s == colours@,
                alphas@.len() == i,
                forall|k: int| 0 <= k < i ==> alphas@[k] == (#[trigger] s[k]).colour.a,
                forall|k: int| 0 <= k < i ==> (#[trigger] s[k]).colour.a != 255,
            ensures
                alphas@.len() <= s.len(),
                forall|k: int| 0 <= k < alphas@.len() ==> alphas@[k] == (#[trigger] s[k]).colour.a,
                forall|k: int| 0 <= k < alphas@.len() ==> (#[trigger] s[k]).colour.a != 255,
                alphas@.len() < s.len() ==> s[alphas@.len() as int].colour.a == 255,
                s == colours@,
            decreases s.len() - i,
        {
            let def = colours[i];
            if def.colour.is_opaque() {
                break;
            }
            alphas.push(def.colour.a);
            i += 1;
        }
        proof {
            lemma_first_opaque(s);
            let m = alphas@.len() as int;
            if first_opaque(s) < m {
                assert(s[first_opaque(s)].colour.a == 255);
            }
            if first_opaque(s) > m {
                assert(s[m].colour.a != 255);
                assert(m < s.len());
            }
            assert(first_opaque(s) == m);
            assert(alphas@ =~= spec_trns(s));
        }
        alphas
    }

    /// The colour table of a sorted palette: three bytes per entry.
    pub fn palette(colours: &[ColourDefinition]) -> (r: Vec<u8>)
        ensures
            r@ == spec_palette_bytes(colours@),
    {
        let ghost s = colours@;
        let mut ret: Vec<u8> = Vec::new();
        let mut i: usize = 0;
        proof {
            assert(s.take(0) =~= Seq::<ColourDefinition>::empty());
        }
        while i < colours.len()
            invariant
                0 <= i <= s.len(),
                s == colours@,
                ret@ == spec_palette_bytes(s.take(i as int)),
            decreases s.len() - i,
        {
            let d = colours[i];
            proof {
                assert(s.take(i as int + 1).drop_last() =~= s.take(i as int));
                assert(s.take(i as int + 1).last() == d);
                assert(spec_palette_bytes(s.take(i as int + 1)) == spec_palette_bytes(
                    s.take(i as int),
                ) + seq![d.colour.r, d.colour.g, d.colour.b]);
            }
            ret.push(d.colour.r);
            ret.push(d.colour.g);
            ret.push(d.colour.b);
            proof {
                assert(ret@ =~= spec_palette_bytes(s.take(i as int)) + seq![
                    d.colour.r,
                    d.colour.g,
                    d.colour.b,
                ]);
            }
            i += 1;
        }
        proof {
            assert(s.take(s.len() as int) =~= s);
        }
        ret
    }

    /// The pixel bytes: each grid cell's position in the sorted
    /// palette.
    pub fn paletted_date(colours: Vec<ColourDefinition>, data: &[char]) -> (r: Vec<u8>)
        requires
            colours@.len() <= 256,
            forall|k: int|
                0 <= k < data@.len() ==> index_of_ident(colours@, #[trigger] data@[k]) is Some,
        ensures
            r@ == spec_indices(colours@, data@),
    {
        let mut ret: Vec<u8> = Vec::new();
        let mut i: usize = 0;
        while i < data.len()
            invariant
                0 <= i <= data@.len(),
                colours@.len() <= 256,
                forall|k: int|
                    0 <= k < data@.len() ==> index_of_ident(colours@, #[trigger] data@[k])
                        is Some,
                ret@.len() == i,
                forall|k: int|
                    0 <= k < i ==> ret@[k] == index_of_ident(colours@, #[trigger] data@[k])->Some_0
                        as u8,
            decreases data@.len() - i,
        {
            let ch = data[i];
            match colour_index(&colours, ch) {
                Some(idx) => {
                    proof {
                        lemma_index_of_ident(colours@, ch);
                    }
                    ret.push(idx as u8);
                },
                None => {
                    proof {
                        assert(index_of_ident(colours@, data@[i as int]) is Some);
                        assert(false);
                    }
                    return ret;
                },
            }
            i += 1;
        }
        proof {
            assert(ret@ =~= spec_indices(colours@, data@));
        }
        ret
    }
}

// --- the assembled stream ---

/// The PNG stream that the `png` crate's encoder writes for an
/// indexed 8-bit image with these dimensions, colour table, optional
/// transparency chunk and pixel bytes; it depends on them alone.
pub uninterp spec fn png_stream_of(
    width: u32,
    height: u32,
    plte: Seq<u8>,
    trns: Option<Seq<u8>>,
    idat: Seq<u8>,
) -> Seq<u8>;

/// Relies on png::Encoder with indexed colour at 8-bit depth: it
/// writes the signature, header, colour table, the transparency
/// chunk when one is given, the compressed pixel data and the
/// terminator for exactly these inputs, into the returned buffer.
/// Its only failure paths are a zero dimension, pixel data whose
/// length is not width times height, and a chunk beyond the format's
/// four-byte length field; every write goes into the returned
/// buffer, which cannot fail.
#[verifier::external_body]
fn encode_png(
    width: u32,
    height: u32,
    plte: &Vec<u8>,
    trns: Option<&Vec<u8>>,
    idat: &Vec<u8>,
) -> (r: Result<Vec<u8>, png::EncodingError>)
    ensures
        r matches Ok(bytes) ==> bytes@ == png_stream_of(
            width,
            height,
            plte@,
            match trns {
                Some(t) => Some(t@),
                None => None,
            },
            idat@,
        ),
        width > 0 && height > 0 && idat@.len() == width * height && plte@.len() <= 0x7fffffff
            && (trns matches Some(t) ==> t@.len() <= 0x7fffffff) ==> r is Ok,
{
    let mut out: Vec<u8> = Vec::new();
    let mut enc = png::Encoder::new(&mut out, width, height);
    enc.set_color(png::ColorType::Indexed);
    enc.set_depth(png::BitDepth::Eight);
    enc.set_palette(plte.clone());
    if let Some(t) = trns {
        enc.set_trns(t.clone());
    }
    let mut writer = enc.write_header()?;
    writer.write_image_data(idat)?;
    writer.finish()?;
    Ok(out)
}

/// Finding an identifier in the palette finds it in the sorted
/// palette too.
pub proof fn lemma_sorted_index_some(defs: Seq<ColourDefinition>, c: char)
    requires
        spec_get(defs, c) is Some,
    ensures
        index_of_ident(spec_sorted(defs), c) is Some,
{
    let sorted = spec_sorted(defs);
    crate::palette::lemma_spec_get(defs, c);
    let i = choose|i: int|
        0 <= i < defs.len() && defs[i].ident == c && defs[i].colour == spec_get(defs, c)->Some_0;
    assert(has_ident(c)(defs[i]));
    lemma_count_pos(defs, has_ident(c));
    lemma_sorted_count(defs, has_ident(c));
    lemma_count_pos(sorted, has_ident(c));
    let m = choose|m: int| 0 <= m < sorted.len() && has_ident(c)(#[trigger] sorted[m]);
    lemma_index_of_ident(sorted, c);
    if index_of_ident(sorted, c) is None {
        assert(sorted[m].ident != c);
    }
}

impl Tep {
    /// Serialise the image as an indexed-colour PNG stream: the
    /// palette sorted by ascending alpha, its transparency chunk and
    /// colour table, and one index byte per cell. A palette of more
    /// than 256 entries exceeds the 8-bit indexed format; otherwise
    /// every image with at least one pixel per side encodes.
    pub fn png_bytes(&self) -> (r: Result<Vec<u8>, Error>)
        requires
            self.wf(),
            self.width <= u32::MAX,
            self.height <= u32::MAX,
        ensures
            self.palette@.len() > 256 ==> (r matches Err(e) && e@ == ErrorView::TooManyColours(
                self.palette@.len() as int,
            )),
            self.palette@.len() <= 256 ==> match r {
                Ok(bytes) => bytes@ == png_stream_of(
                    self.width as u32,
                    self.height as u32,
                    spec_palette_bytes(spec_sorted(self.palette@)),
                    spec_trns_opt(spec_sorted(self.palette@)),
                    spec_indices(spec_sorted(self.palette@), self.data@),
                ),
                Err(e) => e@ is PngEncoding,
            },
            self.palette@.len() <= 256 && self.width >= 1 && self.height >= 1 ==> r is Ok,
    {
        if self.palette.colours.len() > 256 {
            return Err(Error::TooManyColours { count: self.palette.colours.len() });
        }
        let ghost sorted = spec_sorted(self.palette@);
        let sorted_vec = sort_colours(&self.palette.colours);
        proof {
            lemma_sorted_len(self.palette@);
            assert forall|k: int| 0 <= k < self.data@.len() implies index_of_ident(
                sorted,
                #[trigger] self.data@[k],
            ) is Some by {
                lemma_sorted_index_some(self.palette@, self.data@[k]);
            }
        }
        let trns_v = Self::trns(&sorted_vec);
        let plte = Self::palette(sorted_vec.as_slice());
        let idat = Self::paletted_date(sorted_vec, self.data.as_slice());
        let trns_opt: Option<&Vec<u8>> = if trns_v.len() == 0 {
            None
        } else {
            Some(&trns_v)
        };
        proof {
            // the chunks fit the format's length fields, and the pixel
            // data has exactly one byte per cell
            lemma_palette_bytes_len(sorted);
            lemma_first_opaque(sorted);
        }
        match encode_png(self.width as u32, self.height as u32, &plte, trns_opt, &idat) {
            Ok(bytes) => Ok(bytes),
            Err(e) => Err(Error::PngEncodingError { error: e }),
        }
    }
}

// --- what the stream's pieces mean, proved of the whole pipeline ---

/// The colour a decoder reconstructs for palette index `idx`: the
/// three colour-table bytes at that index, and the transparency
/// chunk's alpha byte there, or fully opaque past the chunk's end.
pub open spec fn reconstruct(plte: Seq<u8>, trns: Seq<u8>, idx: int) -> Colour {
    Colour {
        r: plte[3 * idx],
        g: plte[3 * idx + 1],
        b: plte[3 * idx + 2],
        a: if idx < trns.len() {
            trns[idx]
        } else {
            255u8
        },
    }
}

/// Round trip: for any palette of at most 256 uniquely-named colours
/// and any grid over it, reconstructing each cell's colour from the
/// emitted colour table, transparency chunk and pixel index yields
/// exactly the colour the palette gives that cell's glyph.
pub proof fn lemma_round_trip(defs: Seq<ColourDefinition>, data: Seq<char>)
    requires
        palette_wf(defs),
        defs.len() <= 256,
        forall|k: int| 0 <= k < data.len() ==> spec_get(defs, #[trigger] data[k]) is Some,
    ensures
        forall|k: int|
            0 <= k < data.len() ==> reconstruct(
                spec_palette_bytes(spec_sorted(defs)),
                spec_trns(spec_sorted(defs)),
                spec_indices(spec_sorted(defs), data)[k] as int,
            ) == spec_get(defs, #[trigger] data[k])->Some_0,
{
    let sorted = spec_sorted(defs);
    lemma_sorted_len(defs);
    lemma_sorted_alpha(defs);
    lemma_first_opaque(sorted);
    assert forall|k: int| 0 <= k < data.len() implies reconstruct(
        spec_palette_bytes(sorted),
        spec_trns(sorted),
        spec_indices(sorted, data)[k] as int,
    ) == spec_get(defs, #[trigger] data[k])->Some_0 by {
        let ch = data[k];
        let col = spec_get(defs, ch)->Some_0;
        crate::palette::lemma_spec_get(defs, ch);
        let i = choose|i: int| 0 <= i < defs.len() && defs[i].ident == ch && defs[i].colour == col;
        let d = defs[i];
        // d also stands in the sorted palette
        assert(is_def(d)(defs[i]));
        lemma_count_pos(defs, is_def(d));
        lemma_sorted_count(defs, is_def(d));
        lemma_count_pos(sorted, is_def(d));
        let m = choose|m: int| 0 <= m < sorted.len() && is_def(d)(#[trigger] sorted[m]);
        // the index byte points at the first entry named ch
        lemma_sorted_index_some(defs, ch);
        lemma_index_of_ident(sorted, ch);
        let j = index_of_ident(sorted, ch)->Some_0;
        // ch names only one entry, so that entry is d
        lemma_wf_ident_count(defs, ch);
        lemma_sorted_count(defs, has_ident(ch));
        assert(has_ident(ch)(sorted[m]));
        assert(has_ident(ch)(sorted[j]));
        if j < m {
            lemma_count_two(sorted, has_ident(ch), j, m);
        }
        if m < j {
            lemma_count_two(sorted, has_ident(ch), m, j);
        }
        assert(sorted[j] == d);
        lemma_palette_bytes_index(sorted, j);
        // the alpha byte: inside the chunk it is the entry's own, and
        // past the chunk the entry is fully opaque
        if j >= first_opaque(sorted) {
            assert(first_opaque(sorted) < sorted.len());
            assert(sorted[first_opaque(sorted)].colour.a == 255);
            assert(sorted[j].colour.a >= 255);
        }
        assert(spec_indices(sorted, data)[k] == j as u8);
        assert((j as u8) as int == j);
    }
}

/// The entries that are not fully opaque.
pub open spec fn non_opaque() -> spec_fn(ColourDefinition) -> bool {
    |d: ColourDefinition| d.colour.a != 255
}

proof fn lemma_count_none_range(s: Seq<ColourDefinition>, p: spec_fn(ColourDefinition) -> bool)
    requires
        forall|k: int| 0 <= k < s.len() ==> !p(#[trigger] s[k]),
    ensures
        count_matching(s, p) == 0,
    decreases s.len(),
{
    if s.len() > 0 {
        assert(forall|k: int|
            0 <= k < s.drop_first().len() ==> s.drop_first()[k] == s[k + 1]);
        lemma_count_none_range(s.drop_first(), p);
    }
}

proof fn lemma_count_prefix(s: Seq<ColourDefinition>, p: spec_fn(ColourDefinition) -> bool, m: int)
    requires
        0 <= m <= s.len(),
        forall|k: int| 0 <= k < s.len() ==> (p(#[trigger] s[k]) <==> k < m),
    ensures
        count_matching(s, p) == m,
    decreases s.len(),
{
    if s.len() == 0 {
    } else if m == 0 {
        lemma_count_none_range(s, p);
    } else {
        assert(p(s[0]));
        assert(forall|k: int|
            0 <= k < s.drop_first().len() ==> s.drop_first()[k] == s[k + 1]);
        lemma_count_prefix(s.drop_first(), p, m - 1);
    }
}

/// Transparency chunk: for the palette sorted by ascending alpha, the
/// emitted chunk holds exactly one alpha byte per non-opaque palette
/// entry — the entries strictly before the first fully-opaque one —
/// and a palette of only opaque colours emits no chunk at all.
pub proof fn lemma_transparency_chunk(defs: Seq<ColourDefinition>)
    ensures
        spec_trns(spec_sorted(defs)).len() == count_matching(defs, non_opaque()),
        (forall|k: int| 0 <= k < defs.len() ==> (#[trigger] defs[k]).colour.a == 255)
            ==> spec_trns_opt(spec_sorted(defs)) is None,
{
    let sorted = spec_sorted(defs);
    lemma_sorted_alpha(defs);
    lemma_first_opaque(sorted);
    let fo = first_opaque(sorted);
    assert forall|k: int| 0 <= k < sorted.len() implies (non_opaque()(#[trigger] sorted[k])
        <==> k < fo) by {
        if k >= fo {
            assert(fo < sorted.len());
            assert(sorted[fo].colour.a == 255);
            assert(sorted[k].colour.a >= 255);
        }
    }
    lemma_count_prefix(sorted, non_opaque(), fo);
    lemma_sorted_count(defs, non_opaque());
    if forall|k: int| 0 <= k < defs.len() ==> (#[trigger] defs[k]).colour.a == 255 {
        lemma_count_none_range(defs, non_opaque());
    }
}

} // verus!
