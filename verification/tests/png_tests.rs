use std::io::Cursor;

use tep::encode::sort_colours;
use tep::{Colour, ColourDefinition, Error, Palette, Tep};

/// Decode a PNG stream: the pixel bytes, the palette chunk, and the
/// transparency chunk if present.
fn decode(bytes: &[u8]) -> (Vec<u8>, Vec<u8>, Option<Vec<u8>>) {
    let decoder = png::Decoder::new(Cursor::new(bytes.to_vec()));
    let mut reader = decoder.read_info().unwrap();
    let mut buf = vec![0u8; reader.output_buffer_size().unwrap()];
    let info = reader.next_frame(&mut buf).unwrap();
    buf.truncate(info.buffer_size());
    let plte = reader.info().palette.clone().unwrap().into_owned();
    let trns = reader.info().trns.clone().map(|t| t.into_owned());
    (buf, plte, trns)
}

#[test]
fn round_trip_reconstructs_every_cell() {
    let text = "t: rgba(10,20,30,0)\no: #ff0000\ng: #00ff0080\n\ntog\ngot\n";
    let t = Tep::parse(text).unwrap();
    let bytes = t.png_bytes().unwrap();
    let (pixels, plte, trns) = decode(&bytes);
    let trns = trns.unwrap();
    assert_eq!(pixels.len(), t.data.len());
    for (cell, idx) in t.data.iter().zip(pixels.iter()) {
        let i = *idx as usize;
        let expected = t.palette.get(*cell).unwrap();
        let alpha = if i < trns.len() { trns[i] } else { 255 };
        let got = Colour::rgba(plte[3 * i], plte[3 * i + 1], plte[3 * i + 2], alpha);
        assert_eq!(got, expected);
    }
}

#[test]
fn palette_chunk_is_sorted_by_alpha() {
    let text = "o: #010203\nt: rgba(9,8,7,3)\n\not\n";
    let t = Tep::parse(text).unwrap();
    let bytes = t.png_bytes().unwrap();
    let (pixels, plte, trns) = decode(&bytes);
    // the transparent entry comes first in the colour table
    assert_eq!(plte, vec![9, 8, 7, 1, 2, 3]);
    assert_eq!(trns.unwrap(), vec![3]);
    assert_eq!(pixels, vec![1, 0]);
}

#[test]
fn opaque_image_has_no_transparency_chunk() {
    let t = Tep::parse("a: #f00\nb: #0f0\n\nab\n").unwrap();
    let bytes = t.png_bytes().unwrap();
    let (_, plte, trns) = decode(&bytes);
    assert_eq!(plte.len(), 6);
    assert!(trns.is_none());
}

#[test]
fn trns_covers_exactly_the_leading_transparent_run() {
    let defs = vec![
        ColourDefinition { ident: 'a', colour: Colour::rgba(0, 0, 0, 0) },
        ColourDefinition { ident: 'b', colour: Colour::rgba(0, 0, 0, 128) },
        ColourDefinition { ident: 'c', colour: Colour::rgb(1, 1, 1) },
        ColourDefinition { ident: 'd', colour: Colour::rgb(2, 2, 2) },
    ];
    assert_eq!(Tep::trns(&defs), vec![0, 128]);

    let opaque = vec![
        ColourDefinition { ident: 'a', colour: Colour::rgb(0, 0, 0) },
        ColourDefinition { ident: 'b', colour: Colour::rgb(1, 1, 1) },
    ];
    assert_eq!(Tep::trns(&opaque), Vec::<u8>::new());
}

#[test]
fn sort_is_stable_within_equal_alpha() {
    let defs = vec![
        ColourDefinition { ident: 'a', colour: Colour::rgb(1, 0, 0) },
        ColourDefinition { ident: 'b', colour: Colour::rgba(2, 0, 0, 0) },
        ColourDefinition { ident: 'c', colour: Colour::rgb(3, 0, 0) },
        ColourDefinition { ident: 'd', colour: Colour::rgba(4, 0, 0, 0) },
    ];
    let sorted = sort_colours(&defs);
    let idents: Vec<char> = sorted.iter().map(|d| d.ident).collect();
    assert_eq!(idents, vec!['b', 'd', 'a', 'c']);
}

fn palette_text_with(n: u32) -> String {
    let mut text = String::new();
    for i in 0..n {
        text.push(char::from_u32(0x100 + i).unwrap());
        text.push_str(": #123\n");
    }
    text
}

#[test]
fn more_than_256_colours_is_rejected() {
    let mut text = palette_text_with(257);
    text.push('\n');
    text.push(char::from_u32(0x100).unwrap());
    text.push('\n');
    let t = Tep::parse(&text).unwrap();
    assert!(matches!(t.png_bytes(), Err(Error::TooManyColours { count: 257 })));
}

#[test]
fn zero_width_grid_cannot_encode() {
    // a row of only whitespace has zero cells, and the container
    // format rejects a zero dimension
    let t = Tep::parse("a: #000\n\n \n").unwrap();
    assert_eq!(t.width, 0);
    assert_eq!(t.height, 1);
    assert!(matches!(t.png_bytes(), Err(Error::PngEncodingError { .. })));
}

#[test]
fn exactly_256_colours_is_accepted() {
    let mut text = palette_text_with(256);
    text.push('\n');
    text.push(char::from_u32(0x100).unwrap());
    text.push('\n');
    let t = Tep::parse(&text).unwrap();
    let bytes = t.png_bytes().unwrap();
    let (pixels, plte, _) = decode(&bytes);
    assert_eq!(plte.len(), 3 * 256);
    assert_eq!(pixels.len(), 1);
}
