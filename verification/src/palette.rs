//! The palette: an ordered sequence of identifier/colour pairs,
//! parsed one `CHAR : COLOUR` line at a time.
//!
//! Lookup is by first match; parsing rejects a palette that defines
//! the same identifier twice, so within a parsed palette every
//! identifier names exactly one colour.

use vstd::prelude::*;

use crate::colour::{spec_parse_colour, Colour};
use crate::error::{Error, ErrorView};
use crate::text::{
    find_char, first_empty_of, first_index_of, is_ws, is_ws_char, lemma_first_empty_of,
    lemma_first_index_of, trim, trim_of, views_of, LineCursor,
};

verus! {

/// One palette entry: a single non-whitespace character naming a
/// colour.
#[derive(Copy, Clone, Debug)]
pub struct ColourDefinition {
    pub ident: char,
    pub colour: Colour,
}

/// The colour the first definition of `ident` gives it, if any.
pub open spec fn spec_get(defs: Seq<ColourDefinition>, ident: char) -> Option<Colour>
    decreases defs.len(),
{
    if defs.len() == 0 {
        None
    } else if defs[0].ident == ident {
        Some(defs[0].colour)
    } else {
        spec_get(defs.drop_first(), ident)
    }
}

/// `spec_get` finds `ident` exactly when a definition carries it.
pub proof fn lemma_spec_get(defs: Seq<ColourDefinition>, ident: char)
    ensures
        match spec_get(defs, ident) {
            None => forall|k: int| 0 <= k < defs.len() ==> defs[k].ident != ident,
            Some(c) => exists|i: int|
                0 <= i < defs.len() && defs[i].ident == ident && defs[i].colour == c,
        },
    decreases defs.len(),
{
    if defs.len() == 0 {
    } else if defs[0].ident == ident {
    } else {
        lemma_spec_get(defs.drop_first(), ident);
        assert(forall|k: int| 1 <= k < defs.len() ==> defs[k] == defs.drop_first()[k - 1]);
        if spec_get(defs.drop_first(), ident) is Some {
            let i = choose|i: int|
                0 <= i < defs.drop_first().len() && defs.drop_first()[i].ident == ident
                    && defs.drop_first()[i].colour == spec_get(defs.drop_first(), ident)->Some_0;
            assert(defs[i + 1].ident == ident);
        }
    }
}

/// No identifier is defined twice.
pub open spec fn palette_wf(defs: Seq<ColourDefinition>) -> bool {
    forall|i: int, j: int|
        0 <= i < j < defs.len() ==> (#[trigger] defs[i].ident) != (#[trigger] defs[j].ident)
}

/// What parsing one `CHAR : COLOUR` line yields: both sides trimmed,
/// the identifier exactly one non-whitespace character, the colour
/// side a colour literal.
pub open spec fn spec_parse_colour_definition(line: Seq<char>) -> Result<
    ColourDefinition,
    ErrorView,
> {
    let t = trim_of(line);
    match first_index_of(t, ':') {
        None => Err(ErrorView::MalformedColourDefinition(t)),
        Some(ci) => {
            let ident_part = trim_of(t.take(ci));
            let colour_part = trim_of(t.skip(ci + 1));
            if ident_part.len() != 1 {
                Err(ErrorView::MalformedColourDefinition(t))
            } else if is_ws_char(ident_part[0]) {
                Err(ErrorView::WhitespaceColourIdentifier(t))
            } else {
                match spec_parse_colour(colour_part) {
                    Err(k) => Err(ErrorView::MalformedColour(ident_part[0], k)),
                    Ok(c) => Ok(ColourDefinition { ident: ident_part[0], colour: c }),
                }
            }
        },
    }
}

/// What parsing a block of definition lines yields, starting from the
/// definitions in `acc`: empty lines are skipped, lines are parsed in
/// order, and a repeated identifier is rejected.
pub open spec fn spec_parse_palette_rec(
    lines: Seq<Seq<char>>,
    acc: Seq<ColourDefinition>,
) -> Result<Seq<ColourDefinition>, ErrorView>
    decreases lines.len(),
{
    if lines.len() == 0 {
        Ok(acc)
    } else if lines[0].len() == 0 {
        spec_parse_palette_rec(lines.drop_first(), acc)
    } else {
        match spec_parse_colour_definition(lines[0]) {
            Err(k) => Err(k),
            Ok(def) => if spec_get(acc, def.ident) is Some {
                Err(ErrorView::DuplicateColourIdentifier(def.ident))
            } else {
                spec_parse_palette_rec(lines.drop_first(), acc.push(def))
            },
        }
    }
}

/// What parsing a block of definition lines yields.
pub open spec fn spec_parse_palette(lines: Seq<Seq<char>>) -> Result<
    Seq<ColourDefinition>,
    ErrorView,
> {
    spec_parse_palette_rec(lines, Seq::empty())
}

/// A parsed palette never defines an identifier twice.
pub proof fn lemma_parse_palette_wf(lines: Seq<Seq<char>>, acc: Seq<ColourDefinition>)
    requires
        palette_wf(acc),
    ensures
        spec_parse_palette_rec(lines, acc) matches Ok(defs) ==> palette_wf(defs),
    decreases lines.len(),
{
    if lines.len() == 0 {
    } else if lines[0].len() == 0 {
        lemma_parse_palette_wf(lines.drop_first(), acc);
    } else {
        match spec_parse_colour_definition(lines[0]) {
            Err(_) => {},
            Ok(def) => {
                if spec_get(acc, def.ident) is None {
                    lemma_spec_get(acc, def.ident);
                    assert(palette_wf(acc.push(def)));
                    lemma_parse_palette_wf(lines.drop_first(), acc.push(def));
                }
            },
        }
    }
}

/// First-match lookup among a vector of definitions.
pub fn find_colour(defs: &Vec<ColourDefinition>, ident: char) -> (r: Option<Colour>)
    ensures
        r == spec_get(defs@, ident),
{
    let mut i: usize = 0;
    proof {
        assert(defs@.skip(0) =~= defs@);
    }
    while i < defs.len()
        invariant
            0 <= i <= defs@.len(),
            spec_get(defs@, ident) == spec_get(defs@.skip(i as int), ident),
        decreases defs@.len() - i,
    {
        proof {
            assert(defs@.skip(i as int)[0] == defs@[i as int]);
            assert(defs@.skip(i as int).drop_first() =~= defs@.skip(i + 1));
        }
        if defs[i].ident == ident {
            return Some(defs[i].colour);
        }
        i += 1;
    }
    None
}

/// An ordered set of colour definitions, in textual order.
#[derive(Debug)]
pub struct Palette {
    pub colours: Vec<ColourDefinition>,
}

impl View for Palette {
    type V = Seq<ColourDefinition>;

    open spec fn view(&self) -> Seq<ColourDefinition> {
        self.colours@
    }
}

/// Parse every line of a block as a colour definition, skipping
/// empty lines.
fn parse_definition_lines(lines: &Vec<String>) -> (r: Result<Vec<ColourDefinition>, Error>)
    ensures
        match spec_parse_palette(views_of(lines@)) {
            Ok(defs) => r matches Ok(v) && v@ == defs,
            Err(k) => r matches Err(e) && e@ == k,
        },
{
    let mut defs: Vec<ColourDefinition> = Vec::new();
    let mut i: usize = 0;
    proof {
        assert(views_of(lines@).skip(0) =~= views_of(lines@));
    }
    while i < lines.len()
        invariant
            0 <= i <= lines@.len(),
            spec_parse_palette(views_of(lines@)) == spec_parse_palette_rec(
                views_of(lines@).skip(i as int),
                defs@,
            ),
        decreases lines@.len() - i,
    {
        let ghost rem = views_of(lines@).skip(i as int);
        proof {
            assert(rem[0] == lines@[i as int]@);
            assert(rem.drop_first() =~= views_of(lines@).skip(i + 1));
        }
        let line = &lines[i];
        if line.as_str().unicode_len() != 0 {
            match Palette::parse_colour_definition(line.as_str()) {
                Err(e) => {
                    return Err(e);
                },
                Ok(def) => {
                    match find_colour(&defs, def.ident) {
                        Some(_) => {
                            return Err(Error::DuplicateColourIdentifier { ident: def.ident });
                        },
                        None => {
                            defs.push(def);
                        },
                    }
                },
            }
        }
        i += 1;
    }
    proof {
        assert(views_of(lines@).skip(i as int).len() == 0);
    }
    Ok(defs)
}

impl Palette {
    /// Parse one `CHAR : COLOUR` line.
    pub fn parse_colour_definition(s: &str) -> (r: Result<ColourDefinition, Error>)
        ensures
            match spec_parse_colour_definition(s@) {
                Ok(def) => r matches Ok(v) && v == def,
                Err(k) => r matches Err(e) && e@ == k,
            },
    {
        let trimmed = trim(s);
        let tn = trimmed.unicode_len();
        match find_char(trimmed, ':') {
            None => Err(Error::MalformedColourDefinition { raw: trimmed.to_owned() }),
            Some(ci) => {
                proof {
                    lemma_first_index_of(trimmed@, ':');
                }
                let ident_s = trim(trimmed.substring_char(0, ci));
                let colour_s = trim(trimmed.substring_char(ci + 1, tn));
                proof {
                    assert(trimmed@.subrange(0, ci as int) =~= trimmed@.take(ci as int));
                    assert(trimmed@.subrange(ci + 1, tn as int) =~= trimmed@.skip(ci + 1));
                }
                if ident_s.unicode_len() != 1 {
                    Err(Error::MalformedColourDefinition { raw: trimmed.to_owned() })
                } else {
                    let ident = ident_s.get_char(0);
                    if is_ws(ident) {
                        Err(Error::WhitespaceColourIdentifier { raw: trimmed.to_owned() })
                    } else {
                        match Colour::parse(colour_s) {
                            Err(e) => Err(Error::malformed_colour(ident, e)),
                            Ok(colour) => Ok(ColourDefinition { ident, colour }),
                        }
                    }
                }
            },
        }
    }

    /// Parse a standalone palette text: every non-empty line is a
    /// colour definition.
    pub fn parse(s: &str) -> (r: Result<Palette, Error>)
        ensures
            match spec_parse_palette(crate::text::spec_lines(s@)) {
                Ok(defs) => r matches Ok(p) && p@ == defs && palette_wf(p@),
                Err(k) => r matches Err(e) && e@ == k,
            },
    {
        let lines = crate::text::split_lines(s);
        match parse_definition_lines(&lines) {
            Err(e) => Err(e),
            Ok(defs) => {
                proof {
                    lemma_parse_palette_wf(views_of(lines@), Seq::empty());
                }
                Ok(Palette { colours: defs })
            },
        }
    }

    /// Parse the palette block that leads an image text: definition
    /// lines up to the first empty line, which is consumed. Running
    /// out of lines first means the grid section never began.
    pub fn parse_from_file_lead(cur: &mut LineCursor) -> (r: Result<Palette, Error>)
        requires
            old(cur).wf(),
        ensures
            final(cur).wf(),
            final(cur).lines == old(cur).lines,
            match first_empty_of(old(cur).remaining()) {
                None => (r matches Err(e) && e@ == ErrorView::NoImage) && final(cur).remaining().len() == 0,
                Some(k) => final(cur).remaining() =~= old(cur).remaining().skip(k + 1) && (
                match spec_parse_palette(old(cur).remaining().take(k)) {
                    Ok(defs) => r matches Ok(p) && p@ == defs && palette_wf(p@),
                    Err(kk) => r matches Err(e) && e@ == kk,
                }),
            },
    {
        let ghost rem0 = old(cur).remaining();
        let mut lead: Vec<String> = Vec::new();
        loop
            invariant_except_break
                old(cur).pos <= cur.pos,
                cur.pos - old(cur).pos == lead@.len(),
            invariant
                cur.wf(),
                cur.lines == old(cur).lines,
                rem0 == old(cur).remaining(),
                views_of(lead@) =~= rem0.take(lead@.len() as int),
                forall|k: int| 0 <= k < lead@.len() ==> rem0[k].len() != 0,
            ensures
                first_empty_of(rem0) == Some(lead@.len() as int),
                cur.remaining() =~= rem0.skip(lead@.len() as int + 1),
            decreases cur.lines@.len() - cur.pos,
        {
            proof {
                assert(cur.remaining() =~= rem0.skip(lead@.len() as int));
            }
            if cur.pos == cur.lines.len() {
                proof {
                    lemma_first_empty_of(rem0);
                    if first_empty_of(rem0) is Some {
                        let i = first_empty_of(rem0)->Some_0;
                        assert(rem0[i].len() != 0);
                    }
                }
                return Err(Error::NoImage);
            }
            let line = cur.lines[cur.pos].clone();
            cur.pos = cur.pos + 1;
            proof {
                assert(rem0[lead@.len() as int] == line@);
            }
            if line.as_str().unicode_len() == 0 {
                proof {
                    lemma_first_empty_of(rem0);
                    let m = lead@.len() as int;
                    match first_empty_of(rem0) {
                        None => {
                            assert(rem0[m].len() != 0);
                        },
                        Some(i) => {
                            if i < m {
                                assert(rem0[i].len() != 0);
                            }
                            if i > m {
                                assert(rem0[m].len() != 0);
                            }
                            assert(i == m);
                        },
                    }
                    assert(cur.remaining() =~= rem0.skip(m + 1));
                }
                break;
            }
            proof {
                assert(views_of(lead@.push(line)) =~= rem0.take(lead@.len() as int + 1));
            }
            lead.push(line);
        }
        match parse_definition_lines(&lead) {
            Err(e) => Err(e),
            Ok(defs) => {
                proof {
                    lemma_parse_palette_wf(views_of(lead@), Seq::empty());
                }
                Ok(Palette { colours: defs })
            },
        }
    }

    /// The colour the palette gives `ident`, if any.
    pub fn get(&self, ident: char) -> (r: Option<Colour>)
        ensures
            r == spec_get(self@, ident),
    {
        find_colour(&self.colours, ident)
    }
}

} // verus!
