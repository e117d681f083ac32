//! The grid model and the combined image text: a palette block, one
//! empty line, then rows of glyphs, one glyph per pixel.
//!
//! Within a row, whitespace glyphs are skipped and do not occupy a
//! cell. The first content row fixes the width; every later row must
//! match it, every glyph must resolve in the palette, and at least
//! one content row must be present.

use vstd::prelude::*;

use crate::error::{Error, ErrorView};
use crate::palette::{palette_wf, spec_get, spec_parse_palette, ColourDefinition, Palette};
use crate::text::{
    find_char, first_empty_of, first_index_of, is_ws, is_ws_char, lemma_first_empty_of,
    spec_lines, LineCursor,
};

verus! {

/// The predicate selecting the characters that occupy grid cells.
pub open spec fn non_ws() -> spec_fn(char) -> bool {
    |c: char| !is_ws_char(c)
}

/// The cells of one row: its non-whitespace characters, in order.
pub open spec fn cells_of(line: Seq<char>) -> Seq<char> {
    line.filter(non_ws())
}

/// Appending a character extends the cells exactly when it is not
/// whitespace.
pub proof fn lemma_cells_push(l: Seq<char>, c: char)
    ensures
        cells_of(l.push(c)) == if is_ws_char(c) {
            cells_of(l)
        } else {
            cells_of(l).push(c)
        },
{
    reveal_with_fuel(Seq::<_>::filter, 2);
    assert(l.push(c).drop_last() =~= l);
    assert(l.push(c).last() == c);
    assert(cells_of(l.push(c)) == if non_ws()(c) {
        cells_of(l).push(c)
    } else {
        cells_of(l)
    });
}

/// A row with no characters has no cells.
pub proof fn lemma_cells_empty()
    ensures
        cells_of(Seq::<char>::empty()) == Seq::<char>::empty(),
{
    reveal_with_fuel(Seq::<_>::filter, 1);
    assert(Seq::<char>::empty().filter(non_ws()) =~= Seq::<char>::empty());
}

/// The index in `cells` of the first identifier the palette does not
/// define, if any.
pub open spec fn first_unknown(cells: Seq<char>, defs: Seq<ColourDefinition>) -> Option<int>
    decreases cells.len(),
{
    if cells.len() == 0 {
        None
    } else if spec_get(defs, cells[0]) is None {
        Some(0int)
    } else {
        match first_unknown(cells.drop_first(), defs) {
            None => None,
            Some(i) => Some(i + 1),
        }
    }
}

/// `first_unknown` finds an unknown identifier exactly when one
/// occurs, and finds the first one.
pub proof fn lemma_first_unknown(cells: Seq<char>, defs: Seq<ColourDefinition>)
    ensures
        match first_unknown(cells, defs) {
            None => forall|k: int| 0 <= k < cells.len() ==> spec_get(defs, #[trigger] cells[k]) is Some,
            Some(i) => 0 <= i < cells.len() && spec_get(defs, cells[i]) is None && forall|k: int|
                0 <= k < i ==> spec_get(defs, #[trigger] cells[k]) is Some,
        },
    decreases cells.len(),
{
    if cells.len() == 0 {
    } else if spec_get(defs, cells[0]) is None {
    } else {
        lemma_first_unknown(cells.drop_first(), defs);
        assert(forall|k: int| 1 <= k < cells.len() ==> cells[k] == cells.drop_first()[k - 1]);
    }
}

/// The cells of every row.
pub open spec fn cells_fn() -> spec_fn(Seq<char>) -> Seq<char> {
    |l: Seq<char>| cells_of(l)
}

/// The content rows of a grid section: the lines before the first
/// empty one, or all of them.
pub open spec fn grid_content(lines: Seq<Seq<char>>) -> Seq<Seq<char>> {
    match first_empty_of(lines) {
        None => lines,
        Some(k) => lines.take(k),
    }
}

/// How many lines the grid stage consumes when it reads the whole
/// section: its content rows, and the empty line that terminates
/// them when one is present.
pub open spec fn grid_consumed(lines: Seq<Seq<char>>) -> int {
    match first_empty_of(lines) {
        None => lines.len() as int,
        Some(k) => k + 1,
    }
}

/// A row neither holds an unknown identifier nor differs in width
/// from the first row.
pub open spec fn row_ok(rows: Seq<Seq<char>>, defs: Seq<ColourDefinition>, r: int) -> bool {
    first_unknown(rows[r], defs) is None && (r == 0 || rows[r].len() == rows[0].len())
}

/// The first grid error at or after row `i`, scanning each row for an
/// unknown identifier and then for a width mismatch.
pub open spec fn spec_grid_err(
    rows: Seq<Seq<char>>,
    defs: Seq<ColourDefinition>,
    i: int,
) -> Option<ErrorView>
    decreases rows.len() - i,
{
    if i < 0 || i >= rows.len() {
        None
    } else if first_unknown(rows[i], defs) is Some {
        let j = first_unknown(rows[i], defs)->Some_0;
        Some(ErrorView::UnknownIdentifier { ident: rows[i][j], line_idx: j, ln: i })
    } else if i > 0 && rows[i].len() != rows[0].len() {
        Some(
            ErrorView::DifferingWidths {
                expected: rows[0].len() as int,
                ln: i,
                actual: rows[i].len() as int,
            },
        )
    } else {
        spec_grid_err(rows, defs, i + 1)
    }
}

/// Scanning starts wherever every earlier row is good.
pub proof fn lemma_grid_err_upto(rows: Seq<Seq<char>>, defs: Seq<ColourDefinition>, h: int)
    requires
        0 <= h <= rows.len(),
        forall|r: int| 0 <= r < h ==> row_ok(rows, defs, r),
    ensures
        spec_grid_err(rows, defs, 0) == spec_grid_err(rows, defs, h),
    decreases h,
{
    if h > 0 {
        lemma_grid_err_upto(rows, defs, h - 1);
        assert(row_ok(rows, defs, h - 1));
    }
}

/// What a parsed grid is: its width, height and row-major cells.
pub struct GridView {
    pub width: int,
    pub height: int,
    pub data: Seq<char>,
}

/// What parsing a grid section yields over a given palette.
pub open spec fn spec_parse_grid(lines: Seq<Seq<char>>, defs: Seq<ColourDefinition>) -> Result<
    GridView,
    ErrorView,
> {
    let rows = grid_content(lines).map_values(cells_fn());
    match spec_grid_err(rows, defs, 0) {
        Some(e) => Err(e),
        None => if rows.len() == 0 {
            Err(ErrorView::NoImage)
        } else {
            Ok(
                GridView {
                    width: rows[0].len() as int,
                    height: rows.len() as int,
                    data: rows.flatten(),
                },
            )
        },
    }
}

/// A parsed image: its palette and its grid.
#[derive(Debug)]
pub struct Tep {
    pub palette: Palette,
    pub width: usize,
    pub height: usize,
    pub data: Vec<char>,
}

/// The mathematical shape of a `Tep`.
pub struct TepView {
    pub palette: Seq<ColourDefinition>,
    pub width: int,
    pub height: int,
    pub data: Seq<char>,
}

impl View for Tep {
    type V = TepView;

    open spec fn view(&self) -> TepView {
        TepView {
            palette: self.palette@,
            width: self.width as int,
            height: self.height as int,
            data: self.data@,
        }
    }
}

/// How many leading lines of an image text belong to an embedded
/// palette when an external palette overrides it: lines that are
/// empty or contain a colon.
pub open spec fn lead_skip_len(lines: Seq<Seq<char>>) -> int
    decreases lines.len(),
{
    if lines.len() == 0 {
        0
    } else if lines[0].len() == 0 || first_index_of(lines[0], ':') is Some {
        1 + lead_skip_len(lines.drop_first())
    } else {
        0
    }
}

/// What parsing a whole image text yields: the leading palette block
/// up to the first empty line, then the grid resolved against it.
pub open spec fn spec_parse_tep(s: Seq<char>) -> Result<TepView, ErrorView> {
    let lines = spec_lines(s);
    match first_empty_of(lines) {
        None => Err(ErrorView::NoImage),
        Some(k) => match spec_parse_palette(lines.take(k)) {
            Err(e) => Err(e),
            Ok(defs) => match spec_parse_grid(lines.skip(k + 1), defs) {
                Err(e) => Err(e),
                Ok(g) => Ok(
                    TepView { palette: defs, width: g.width, height: g.height, data: g.data },
                ),
            },
        },
    }
}

/// What parsing an image text against an external palette yields: the
/// embedded palette lines are discarded, then the grid is resolved
/// against the supplied palette.
pub open spec fn spec_parse_with_palette(defs: Seq<ColourDefinition>, s: Seq<char>) -> Result<
    TepView,
    ErrorView,
> {
    let lines = spec_lines(s);
    match spec_parse_grid(lines.skip(lead_skip_len(lines)), defs) {
        Err(e) => Err(e),
        Ok(g) => Ok(TepView { palette: defs, width: g.width, height: g.height, data: g.data }),
    }
}

impl Tep {
    /// The palette has unique identifiers, the cell count is the
    /// grid's area, and every cell resolves in the palette.
    pub open spec fn wf(self) -> bool {
        &&& palette_wf(self.palette@)
        &&& self.data@.len() == self.width * self.height
        &&& forall|k: int|
            0 <= k < self.data@.len() ==> spec_get(self.palette@, #[trigger] self.data@[k]) is Some
    }

    /// Parse the grid section: rows until an empty line or the end of
    /// input, resolved against `palette`. On success the cursor
    /// stands just past the content rows and the empty line that
    /// ended them; on an error in some row, just past that row and no
    /// further.
    pub fn parse_image(cur: &mut LineCursor, palette: Palette) -> (r: Result<Tep, Error>)
        requires
            old(cur).wf(),
        ensures
            final(cur).wf(),
            final(cur).lines == old(cur).lines,
            old(cur).pos <= final(cur).pos,
            match spec_parse_grid(old(cur).remaining(), palette@) {
                Ok(g) => r matches Ok(t) && t.palette@ == palette@ && t.width as int == g.width
                    && t.height as int == g.height && t.data@ == g.data && (palette_wf(palette@)
                    ==> t.wf()) && final(cur).pos - old(cur).pos == grid_consumed(
                    old(cur).remaining(),
                ),
                Err(k) => (r matches Err(e) && e@ == k) && (match k {
                    ErrorView::UnknownIdentifier { ln, .. } => final(cur).pos - old(cur).pos == ln
                        + 1,
                    ErrorView::DifferingWidths { ln, .. } => final(cur).pos - old(cur).pos == ln
                        + 1,
                    ErrorView::NoImage => final(cur).pos - old(cur).pos == grid_consumed(
                        old(cur).remaining(),
                    ),
                    _ => true,
                }),
            },
    {
        let ghost rem0 = old(cur).remaining();
        let ghost defs = palette@;
        let mut data: Vec<char> = Vec::new();
        let mut width: Option<usize> = None;
        let mut height: usize = 0;
        proof {
            assert(rem0.skip(0) =~= rem0);
            assert(data@ =~= rem0.take(0).map_values(cells_fn()).flatten());
        }
        loop
            invariant_except_break
                cur.pos - old(cur).pos == height,
                cur.remaining() =~= rem0.skip(height as int),
            invariant
                cur.wf(),
                cur.lines == old(cur).lines,
                old(cur).pos <= cur.pos,
                rem0 == old(cur).remaining(),
                defs == palette@,
                height <= rem0.len(),
                forall|r: int| 0 <= r < height ==> (#[trigger] rem0[r]).len() != 0,
                forall|r: int|
                    0 <= r < height ==> first_unknown(cells_of(#[trigger] rem0[r]), defs) is None,
                forall|r: int|
                    0 < r < height ==> cells_of(#[trigger] rem0[r]).len() == cells_of(
                        rem0[0],
                    ).len(),
                match width {
                    None => height == 0 && data@.len() == 0,
                    Some(w) => height >= 1 && w == cells_of(rem0[0]).len() && data@.len() == w
                        * height,
                },
                data@ == rem0.take(height as int).map_values(cells_fn()).flatten(),
                forall|k: int| 0 <= k < data@.len() ==> spec_get(defs, #[trigger] data@[k]) is Some,
            ensures
                grid_content(rem0) =~= rem0.take(height as int),
                height <= rem0.len(),
                forall|r: int|
                    0 <= r < height ==> first_unknown(cells_of(#[trigger] rem0[r]), defs) is None,
                forall|r: int|
                    0 < r < height ==> cells_of(#[trigger] rem0[r]).len() == cells_of(
                        rem0[0],
                    ).len(),
                match width {
                    None => height == 0 && data@.len() == 0,
                    Some(w) => height >= 1 && w == cells_of(rem0[0]).len() && data@.len() == w
                        * height,
                },
                data@ == rem0.take(height as int).map_values(cells_fn()).flatten(),
                forall|k: int| 0 <= k < data@.len() ==> spec_get(defs, #[trigger] data@[k]) is Some,
                cur.wf(),
                cur.lines == old(cur).lines,
                old(cur).pos <= cur.pos,
                cur.pos - old(cur).pos == grid_consumed(rem0),
            decreases cur.lines@.len() - cur.pos,
        {
            if cur.pos == cur.lines.len() {
                proof {
                    assert(cur.remaining().len() == 0);
                    assert(height == rem0.len());
                    lemma_first_empty_of(rem0);
                    if first_empty_of(rem0) is Some {
                        let i = first_empty_of(rem0)->Some_0;
                        assert(rem0[i].len() != 0);
                    }
                    assert(grid_content(rem0) =~= rem0.take(height as int));
                    assert(grid_consumed(rem0) == rem0.len() as int);
                }
                break;
            }
            let line = cur.lines[cur.pos].clone();
            cur.pos = cur.pos + 1;
            proof {
                assert(rem0[height as int] == line@);
                assert(cur.remaining() =~= rem0.skip(height as int + 1));
            }
            let s_line = line.as_str();
            let cn = s_line.unicode_len();
            if cn == 0 {
                proof {
                    lemma_first_empty_of(rem0);
                    let m = height as int;
                    match first_empty_of(rem0) {
                        None => {
                            assert(rem0[m].len() != 0);
                        },
                        Some(i) => {
                            if i < m {
                                assert(rem0[i].len() != 0);
                            }
                            if i > m {
                                assert(rem0[m].len() != 0);
                            }
                            assert(i == m);
                        },
                    }
                    assert(grid_content(rem0) =~= rem0.take(height as int));
                    assert(grid_consumed(rem0) == height as int + 1);
                }
                break;
            }
            let ghost row = line@;
            let ghost base = data@;
            let mut line_width: usize = 0;
            let mut ci: usize = 0;
            proof {
                lemma_cells_empty();
                assert(row.take(0) =~= Seq::<char>::empty());
                assert(data@ =~= base + cells_of(row.take(0)));
            }
            while ci < cn
                invariant
                    0 <= ci <= cn,
                    cn == row.len(),
                    line_width <= ci,
                    row == line@,
                    s_line@ == row,
                    defs == palette@,
                    cur.pos - old(cur).pos == height + 1,
                    rem0 == old(cur).remaining(),
                    cur.wf(),
                    cur.lines == old(cur).lines,
                    height < rem0.len(),
                    rem0[height as int] == row,
                    row.len() != 0,
                    forall|r: int| 0 <= r < height ==> (#[trigger] rem0[r]).len() != 0,
                    forall|r: int|
                        0 <= r < height ==> first_unknown(cells_of(#[trigger] rem0[r]), defs)
                            is None,
                    forall|r: int|
                        0 < r < height ==> cells_of(#[trigger] rem0[r]).len() == cells_of(
                            rem0[0],
                        ).len(),
                    match width {
                        None => height == 0 && base.len() == 0,
                        Some(w) => height >= 1 && w == cells_of(rem0[0]).len() && base.len() == w
                            * height,
                    },
                    base == rem0.take(height as int).map_values(cells_fn()).flatten(),
                    line_width == cells_of(row.take(ci as int)).len(),
                    data@ == base + cells_of(row.take(ci as int)),
                    forall|k: int|
                        0 <= k < data@.len() ==> spec_get(defs, #[trigger] data@[k]) is Some,
                decreases cn - ci,
            {
                let c = s_line.get_char(ci);
                proof {
                    assert(row.take(ci as int + 1) =~= row.take(ci as int).push(c));
                    lemma_cells_push(row.take(ci as int), c);
                }
                if !is_ws(c) {
                    match palette.get(c) {
                        Some(_) => {
                            data.push(c);
                            line_width = line_width + 1;
                        },
                        None => {
                            proof {
                                let content = grid_content(rem0);
                                let rows = content.map_values(cells_fn());
                                lemma_first_empty_of(rem0);
                                match first_empty_of(rem0) {
                                    None => {},
                                    Some(i) => {
                                        if i <= height as int {
                                            assert(rem0[i].len() != 0);
                                        }
                                    },
                                }
                                assert(height < content.len());
                                assert(forall|r: int|
                                    0 <= r <= height ==> content[r] == rem0[r]);
                                assert(forall|r: int|
                                    0 <= r <= height < content.len() ==> rows[r] == cells_of(
                                        rem0[r],
                                    ));
                                assert(forall|r: int| 0 <= r < height ==> row_ok(rows, defs, r));
                                lemma_grid_err_upto(rows, defs, height as int);
                                // the cells of the whole row split around position ci
                                let cells = cells_of(row);
                                let x = cells_of(row.take(ci as int));
                                assert(row =~= row.take(ci as int + 1) + row.skip(ci as int + 1));
                                Seq::filter_distributes_over_add(
                                    row.take(ci as int + 1),
                                    row.skip(ci as int + 1),
                                    non_ws(),
                                );
                                assert(cells =~= x.push(c) + cells_of(row.skip(ci as int + 1)));
                                assert(cells[x.len() as int] == c);
                                assert(forall|k: int| 0 <= k < x.len() ==> cells[k] == x[k]);
                                assert(data@ == base + x);
                                assert(forall|k: int|
                                    0 <= k < x.len() ==> data@[base.len() + k] == x[k]);
                                lemma_first_unknown(cells, defs);
                                match first_unknown(cells, defs) {
                                    None => {
                                        assert(spec_get(defs, cells[x.len() as int]) is Some);
                                    },
                                    Some(i) => {
                                        if i < x.len() {
                                            assert(cells[i] == x[i]);
                                            assert(data@[base.len() + i] == x[i]);
                                            assert(spec_get(defs, data@[base.len() + i])
                                                is Some);
                                            assert(spec_get(defs, cells[i]) is Some);
                                        }
                                        if i > x.len() {
                                            assert(spec_get(defs, cells[x.len() as int])
                                                is Some);
                                        }
                                        assert(i == x.len());
                                    },
                                }
                                assert(rows[height as int] == cells);
                                assert(spec_grid_err(rows, defs, height as int) == Some(
                                    ErrorView::UnknownIdentifier {
                                        ident: c,
                                        line_idx: line_width as int,
                                        ln: height as int,
                                    },
                                ));
                            }
                            return Err(
                                Error::UnknownIdentifier {
                                    ident: c,
                                    line_idx: line_width,
                                    ln: height,
                                },
                            );
                        },
                    }
                }
                ci = ci + 1;
            }
            // the row is fully scanned: its cells are all known
            let ghost cells = cells_of(row);
            proof {
                assert(row.take(cn as int) =~= row);
                assert(cells_of(row.take(cn as int)) == cells);
                assert(data@ == base + cells);
                lemma_first_unknown(cells, defs);
                if first_unknown(cells, defs) is Some {
                    let i = first_unknown(cells, defs)->Some_0;
                    assert(0 <= base.len() + i < data@.len());
                    assert(data@[base.len() + i] == cells[i]);
                    assert(spec_get(defs, data@[base.len() + i]) is Some);
                    assert(spec_get(defs, cells[i]) is Some);
                }
            }
            let w_now: usize = match width {
                None => {
                    width = Some(line_width);
                    line_width
                },
                Some(w) => w,
            };
            if w_now != line_width {
                proof {
                    let content = grid_content(rem0);
                    let rows = content.map_values(cells_fn());
                    lemma_first_empty_of(rem0);
                    match first_empty_of(rem0) {
                        None => {},
                        Some(i) => {
                            if i <= height as int {
                                assert(rem0[i].len() != 0);
                            }
                        },
                    }
                    assert(height < content.len());
                    assert(forall|r: int| 0 <= r <= height ==> content[r] == rem0[r]);
                    assert(forall|r: int|
                        0 <= r <= height < content.len() ==> rows[r] == cells_of(rem0[r]));
                    assert(forall|r: int| 0 <= r < height ==> row_ok(rows, defs, r));
                    lemma_grid_err_upto(rows, defs, height as int);
                    assert(rows[height as int] == cells);
                    assert(height >= 1);
                    assert(rows[0].len() == w_now);
                    assert(spec_grid_err(rows, defs, height as int) == Some(
                        ErrorView::DifferingWidths {
                            expected: w_now as int,
                            ln: height as int,
                            actual: line_width as int,
                        },
                    ));
                }
                return Err(
                    Error::DifferingWidths { expected: w_now, ln: height, actual: line_width },
                );
            }
            proof {
                let taken = rem0.take(height as int).map_values(cells_fn());
                assert(rem0.take(height as int + 1) =~= rem0.take(height as int).push(
                    rem0[height as int],
                ));
                assert(rem0.take(height as int + 1).map_values(cells_fn()) =~= taken.push(
                    cells,
                ));
                taken.lemma_flatten_push(cells);
                assert(data@ == rem0.take(height as int + 1).map_values(cells_fn()).flatten());
                assert(data@.len() == w_now * height + w_now);
                assert(w_now * (height + 1) == w_now * height + w_now) by (nonlinear_arith);
            }
            height = height + 1;
        }
        // the content rows are exactly the consumed lines
        let ghost rows = grid_content(rem0).map_values(cells_fn());
        proof {
            assert(rows.len() == height);
            assert(forall|r: int| 0 <= r < height ==> rows[r] == cells_of(rem0[r]));
            assert(forall|r: int| 0 <= r < height ==> row_ok(rows, defs, r));
            lemma_grid_err_upto(rows, defs, height as int);
            assert(spec_grid_err(rows, defs, 0) is None);
        }
        if height == 0 {
            return Err(Error::NoImage);
        }
        let w: usize = match width {
            None => {
                proof {
                    assert(false);
                }
                0
            },
            Some(w) => w,
        };
        let t = Tep { palette, width: w, height, data };
        proof {
            assert(rows[0] == cells_of(rem0[0]));
            assert(t.data@ == rows.flatten());
        }
        Ok(t)
    }

    /// Parse a whole image text: the leading palette, one empty line,
    /// then the grid.
    pub fn parse(s: &str) -> (r: Result<Tep, Error>)
        ensures
            match spec_parse_tep(s@) {
                Ok(tv) => r matches Ok(t) && t@ == tv && t.wf(),
                Err(k) => r matches Err(e) && e@ == k,
            },
    {
        let mut cur = LineCursor::from_text(s);
        match Palette::parse_from_file_lead(&mut cur) {
            Err(e) => Err(e),
            Ok(palette) => Self::parse_image(&mut cur, palette),
        }
    }

    /// Parse an image text against an external palette: any leading
    /// lines that are empty or contain a colon are discarded first.
    pub fn with_palette(palette: Palette, s: &str) -> (r: Result<Tep, Error>)
        ensures
            match spec_parse_with_palette(palette@, s@) {
                Ok(tv) => r matches Ok(t) && t@ == tv && (palette_wf(palette@) ==> t.wf()),
                Err(k) => r matches Err(e) && e@ == k,
            },
    {
        let ghost lines0 = spec_lines(s@);
        let mut cur = LineCursor::from_text(s);
        proof {
            assert(lines0.skip(0) =~= lines0);
        }
        loop
            invariant
                cur.wf(),
                lines0.len() == cur.lines@.len(),
                cur.remaining() =~= lines0.skip(cur.pos as int),
                lead_skip_len(lines0) == cur.pos + lead_skip_len(lines0.skip(cur.pos as int)),
            ensures
                cur.wf(),
                cur.remaining() =~= lines0.skip(cur.pos as int),
                lead_skip_len(lines0) == cur.pos,
            decreases cur.lines@.len() - cur.pos,
        {
            let ghost rem = lines0.skip(cur.pos as int);
            if cur.pos == cur.lines.len() {
                proof {
                    assert(rem.len() == cur.remaining().len());
                    assert(rem.len() == 0);
                    assert(lead_skip_len(rem) == 0);
                }
                break;
            }
            proof {
                assert(rem.len() == cur.remaining().len());
                assert(rem.len() > 0);
                assert(rem[0] == cur.remaining()[0]);
                assert(rem[0] == cur.lines@[cur.pos as int]@);
                assert forall|k: int| 0 <= k < rem.len() - 1 implies rem.drop_first()[k]
                    == lines0.skip(cur.pos as int + 1)[k] by {
                    assert(rem.drop_first()[k] == rem[k + 1]);
                    assert(rem[k + 1] == lines0[cur.pos + 1 + k]);
                    assert(lines0.skip(cur.pos as int + 1)[k] == lines0[cur.pos + 1 + k]);
                }
                assert(rem.drop_first() =~= lines0.skip(cur.pos as int + 1));
            }
            let line = &cur.lines[cur.pos];
            let sl = line.as_str();
            let skippable = sl.unicode_len() == 0 || match find_char(sl, ':') {
                Some(_) => true,
                None => false,
            };
            if skippable {
                proof {
                    assert(rem[0].len() == 0 || first_index_of(rem[0], ':') is Some);
                    assert(lead_skip_len(rem) == 1 + lead_skip_len(rem.drop_first()));
                }
                cur.pos = cur.pos + 1;
            } else {
                proof {
                    assert(!(rem[0].len() == 0 || first_index_of(rem[0], ':') is Some));
                    assert(lead_skip_len(rem) == 0);
                }
                break;
            }
        }
        Self::parse_image(&mut cur, palette)
    }
}

} // verus!
