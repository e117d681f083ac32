use tep::{Colour, ColourParseError};

fn assert_colour_parsed(raw: &str, expected: Colour) {
    assert_eq!(raw.parse::<Colour>().unwrap(), expected)
}

#[test]
fn lib_parse_all_hex() {
    let g = "#1";
    let lg = "#1a";
    let short = "#123";
    let shorta = "#1234";
    let long = "#1a2b3c";
    let longa = "#1a2b3c4d";
    let rgb = "rgb(64, 128, 196)";
    let rgba = "rgba(64, 128, 196, 127)";

    assert_colour_parsed(g, Colour::grey(0x11));
    assert_colour_parsed(lg, Colour::grey(0x1a));
    assert_colour_parsed(short, Colour::rgb(0x11, 0x22, 0x33));
    assert_colour_parsed(shorta, Colour::rgba(0x11, 0x22, 0x33, 0x44));
    assert_colour_parsed(long, Colour::rgb(0x1a, 0x2b, 0x3c));
    assert_colour_parsed(longa, Colour::rgba(0x1a, 0x2b, 0x3c, 0x4d));
    assert_colour_parsed(rgb, Colour::rgb(64, 128, 196));
    assert_colour_parsed(rgba, Colour::rgba(64, 128, 196, 127));
}

#[test]
fn tep_parse_all_hex() {
    let g = "#1";
    let lg = "#1a";
    let short = "#123";
    let shorta = "#1234";
    let long = "#1a2b3c";
    let longa = "#1a2b3c4d";

    assert_colour_parsed(g, Colour::grey(0x11));
    assert_colour_parsed(lg, Colour::grey(0x1a));
    assert_colour_parsed(short, Colour::rgb(0x11, 0x22, 0x33));
    assert_colour_parsed(shorta, Colour::rgba(0x11, 0x22, 0x33, 0x44));
    assert_colour_parsed(long, Colour::rgb(0x1a, 0x2b, 0x3c));
    assert_colour_parsed(longa, Colour::rgba(0x1a, 0x2b, 0x3c, 0x4d));
}

#[test]
fn constructors_and_opacity() {
    let grey = Colour::grey(7);
    assert_eq!(grey, Colour::rgb(7, 7, 7));
    assert!(grey.is_opaque());
    assert!(Colour::rgb(1, 2, 3).is_opaque());
    assert!(!Colour::rgba(1, 2, 3, 254).is_opaque());
    assert!(Colour::rgba(1, 2, 3, 255).is_opaque());
}

#[test]
fn hex_accepts_both_cases() {
    assert_colour_parsed("#AB", Colour::grey(0xab));
    assert_colour_parsed("#aB2F3c", Colour::rgb(0xab, 0x2f, 0x3c));
}

#[test]
fn empty_colour_is_an_error() {
    assert!(matches!("".parse::<Colour>(), Err(ColourParseError::Empty)));
    assert!(matches!("#".parse::<Colour>(), Err(ColourParseError::Empty)));
}

#[test]
fn bad_hex_is_an_error() {
    assert!(matches!(
        "#12345".parse::<Colour>(),
        Err(ColourParseError::InvalidHex { raw }) if raw == "12345"
    ));
    assert!(matches!(
        "#xy".parse::<Colour>(),
        Err(ColourParseError::InvalidHex { raw }) if raw == "xy"
    ));
}

#[test]
fn unknown_notation_is_an_error() {
    assert!(matches!(
        "blue".parse::<Colour>(),
        Err(ColourParseError::InvalidColour { raw }) if raw == "blue"
    ));
    assert!(matches!(
        "rgb(1,2,3".parse::<Colour>(),
        Err(ColourParseError::InvalidColour { .. })
    ));
}

#[test]
fn rgb_component_count_must_be_exact() {
    assert!(matches!(
        "rgb(1,2)".parse::<Colour>(),
        Err(ColourParseError::RgbMissingValue { .. })
    ));
    assert!(matches!(
        "rgb(1,2,3,4)".parse::<Colour>(),
        Err(ColourParseError::RgbMissingValue { .. })
    ));
    assert!(matches!(
        "rgba(1,2,3)".parse::<Colour>(),
        Err(ColourParseError::RgbaMissingValue { .. })
    ));
    assert!(matches!(
        "rgba(1,2,3,4,5)".parse::<Colour>(),
        Err(ColourParseError::RgbaMissingValue { .. })
    ));
}

#[test]
fn rgb_components_must_be_bytes() {
    assert!(matches!(
        "rgb(1,2,256)".parse::<Colour>(),
        Err(ColourParseError::InvalidRgbValue { .. })
    ));
    assert!(matches!(
        "rgb(1,2,x)".parse::<Colour>(),
        Err(ColourParseError::InvalidRgbValue { .. })
    ));
    assert!(matches!(
        "rgb(1,2,-3)".parse::<Colour>(),
        Err(ColourParseError::InvalidRgbValue { .. })
    ));
}

#[test]
fn rgb_components_are_trimmed() {
    assert_colour_parsed("rgb(  7 ,\t8 , 9 )", Colour::rgb(7, 8, 9));
    assert_colour_parsed("rgba( 1 , 2 , 3 , 4 )", Colour::rgba(1, 2, 3, 4));
    assert_colour_parsed("rgb(+7,008,9)", Colour::rgb(7, 8, 9));
}

#[test]
fn parse_hexpair_gives_the_byte() {
    assert_eq!(Colour::parse_hexpair('1', 'a').unwrap(), 0x1a);
    assert_eq!(Colour::parse_hexpair('F', 'f').unwrap(), 0xff);
    assert!(matches!(
        Colour::parse_hexpair('x', 'z'),
        Err(ColourParseError::InvalidHex { raw }) if raw == "xz"
    ));
}
