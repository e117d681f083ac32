use tep::{Colour, Error, Palette, Tep};

#[test]
fn palette_parse_and_get() {
    let p = Palette::parse("a: #fff\nb : rgb(1,2,3)\nc:#00000080").unwrap();
    assert_eq!(p.get('a').unwrap(), Colour::rgb(0xff, 0xff, 0xff));
    assert_eq!(p.get('b').unwrap(), Colour::rgb(1, 2, 3));
    assert_eq!(p.get('c').unwrap(), Colour::rgba(0, 0, 0, 0x80));
    assert!(p.get('z').is_none());
}

#[test]
fn palette_skips_blank_lines() {
    let p = Palette::parse("a: #fff\n\nb: #000\n").unwrap();
    assert_eq!(p.colours.len(), 2);
}

#[test]
fn palette_line_without_colon_is_malformed() {
    assert!(matches!(
        Palette::parse("a #fff"),
        Err(Error::MalformedColourDefinition { raw }) if raw == "a #fff"
    ));
}

#[test]
fn palette_multi_char_identifier_is_malformed() {
    assert!(matches!(
        Palette::parse("ab: #fff"),
        Err(Error::MalformedColourDefinition { .. })
    ));
}

#[test]
fn palette_bad_colour_is_wrapped_with_its_identifier() {
    assert!(matches!(
        Palette::parse("a: #zz"),
        Err(Error::MalformedColour { ident: 'a', .. })
    ));
}

// Duplicate identifiers are rejected rather than silently resolved to
// the first definition: this is the crate's documented choice.
#[test]
fn palette_duplicate_identifier_is_rejected() {
    assert!(matches!(
        Palette::parse("a: #fff\na: #000"),
        Err(Error::DuplicateColourIdentifier { ident: 'a' })
    ));
}

#[test]
fn tep_parse_basic() {
    let t = Tep::parse("a: #f00\nb: #0f0\n\nab\nba\n").unwrap();
    assert_eq!(t.width, 2);
    assert_eq!(t.height, 2);
    assert_eq!(t.data, vec!['a', 'b', 'b', 'a']);
    assert_eq!(t.palette.get('a').unwrap(), Colour::rgb(0xff, 0, 0));
}

#[test]
fn grid_whitespace_is_not_a_cell() {
    let t = Tep::parse("a: #f00\n\na a\n  aa \n").unwrap();
    assert_eq!(t.width, 2);
    assert_eq!(t.height, 2);
    assert_eq!(t.data, vec!['a', 'a', 'a', 'a']);
}

#[test]
fn crlf_line_endings_parse() {
    let t = Tep::parse("a: #f00\r\n\r\naa\r\n").unwrap();
    assert_eq!(t.width, 2);
    assert_eq!(t.height, 1);
}

#[test]
fn differing_widths_cites_expected_and_actual() {
    assert!(matches!(
        Tep::parse("a: #000\n\naa\na\n"),
        Err(Error::DifferingWidths { expected: 2, ln: 1, actual: 1 })
    ));
}

#[test]
fn unknown_identifier_cites_column_and_line() {
    assert!(matches!(
        Tep::parse("a: #000\n\naa\naz\n"),
        Err(Error::UnknownIdentifier { ident: 'z', line_idx: 1, ln: 1 })
    ));
}

#[test]
fn empty_grid_is_no_image() {
    assert!(matches!(Tep::parse("a: #000\n\n"), Err(Error::NoImage)));
    assert!(matches!(Tep::parse("a: #000\n\n\n"), Err(Error::NoImage)));
}

#[test]
fn palette_without_grid_is_no_image() {
    assert!(matches!(Tep::parse("a: #000\n"), Err(Error::NoImage)));
    assert!(matches!(Tep::parse(""), Err(Error::NoImage)));
}

#[test]
fn with_palette_discards_embedded_lead() {
    let p = Palette::parse("x: #123").unwrap();
    let t = Tep::with_palette(p, "a: #000\nb: #111\n\nxx\nxx\n").unwrap();
    assert_eq!(t.width, 2);
    assert_eq!(t.height, 2);
    assert_eq!(t.data, vec!['x', 'x', 'x', 'x']);
}

#[test]
fn with_palette_grid_may_start_immediately() {
    let p = Palette::parse("x: #123").unwrap();
    let t = Tep::with_palette(p, "x\nx\n").unwrap();
    assert_eq!(t.width, 1);
    assert_eq!(t.height, 2);
}

#[test]
fn with_palette_unknown_identifier_fails() {
    let p = Palette::parse("x: #123").unwrap();
    assert!(matches!(
        Tep::with_palette(p, "xy\n"),
        Err(Error::UnknownIdentifier { ident: 'y', line_idx: 1, ln: 0 })
    ));
}
