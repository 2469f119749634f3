use libaidokuln::{
    break_apart, break_apart_bytes, calculate_text_length, encode, little_endian, page_lines,
    rasterize, split_color, write_text, BitmapPixel, Font, FontError, FontFace, ImageOptions, Padding,
    PixelBuffer, Spliterated, GLYPH_COUNT,
};

/// Advance widths for a 36-pixel font with the metrics of a Times face.
fn times36_width(c: u8) -> usize {
    match c {
        b' ' => 9,
        b'H' => 26,
        b'W' => 34,
        b'd' => 14,
        b'e' => 16,
        b'l' => 10,
        b'o' => 18,
        b'r' => 12,
        _ => 16,
    }
}

fn font_with(height: usize, width_of: fn(u8) -> usize, alpha: u8) -> Font {
    let mut glyphs = Vec::new();
    for k in 0..GLYPH_COUNT {
        let w = width_of(k as u8 + 32);
        glyphs.push(vec![alpha; w * height]);
    }
    Font::new(height, glyphs).unwrap()
}

fn times36() -> Font {
    font_with(36, times36_width, 255)
}

/// A 2-pixel-high font in which every glyph is `width` pixels wide.
fn small_font(width: usize) -> Font {
    let mut glyphs = Vec::new();
    for k in 0..GLYPH_COUNT {
        // Left column set, the rest clear: a glyph of width 1 is fully set.
        let mut g = vec![0u8; width * 2];
        if k != 0 {
            g[0] = 200;
            g[width] = 200;
        }
        glyphs.push(g);
    }
    Font::new(2, glyphs).unwrap()
}

fn lines_of(s: &Spliterated) -> Vec<String> {
    s.split.iter().map(|l| String::from_utf8(l.clone()).unwrap()).collect()
}

#[test]
fn length() {
    assert_eq!(calculate_text_length("Hello World", &times36()), 177);
}

#[test]
fn spliterate() {
    let r = break_apart("Hello World", 200, &times36());
    assert_eq!(lines_of(&r), vec![String::from("Hello World")]);
    assert_eq!(r.width, 177);
}

#[test]
fn fitting_text_keeps_newlines() {
    let f = small_font(1);
    let r = break_apart("ab\ncd", 10, &f);
    assert_eq!(lines_of(&r), vec![String::from("ab\ncd")]);
    assert_eq!(r.width, 5);
}

#[test]
fn greedy_wrap_breaks_between_words() {
    let f = small_font(1);
    // "aa bb cc" is 8 wide; at most 5 per line.
    let r = break_apart("aa bb cc", 5, &f);
    assert_eq!(lines_of(&r), vec![String::from("aa bb"), String::from("cc")]);
    // The width is that of the widest line, "aa bb".
    assert_eq!(r.width, 5);
}

#[test]
fn newline_forces_a_break() {
    let f = small_font(1);
    let r = break_apart("aa\nbb cc dd", 9, &f);
    assert_eq!(lines_of(&r), vec![String::from("aa"), String::from("bb cc dd")]);
    assert_eq!(r.width, 8);
}

#[test]
fn long_word_stands_alone() {
    let f = small_font(1);
    let r = break_apart_bytes(b"ab abcdefgh cd", 4, &f);
    assert_eq!(lines_of(&r), vec![String::from("ab"), String::from("abcdefgh"), String::from("cd")]);
    // A leading word wider than the limit leaves an empty first line.
    let r = break_apart_bytes(b"abcdefgh cd", 4, &f);
    assert_eq!(lines_of(&r), vec![String::new(), String::from("abcdefgh"), String::from("cd")]);
}

#[test]
fn width_is_widest_produced_line() {
    let f = small_font(1);
    let r = break_apart("a bbbbbb c", 3, &f);
    assert_eq!(lines_of(&r), vec![String::from("a"), String::from("bbbbbb"), String::from("c")]);
    assert_eq!(r.width, 6);
    let r = break_apart("aaa b cc", 4, &f);
    assert_eq!(lines_of(&r), vec![String::from("aaa"), String::from("b cc")]);
    assert_eq!(r.width, 4);
}

#[test]
fn page_size_zero_renders_everything() {
    let f = small_font(1);
    let mut o = opts(9, true);
    o.lines = 0;
    let text = "aaaa bbbb cccc dddd eeee";
    let all = rasterize(text, 0, &f, o).unwrap();
    for page in [1, 2, 7] {
        let b = rasterize(text, page, &f, o).unwrap();
        assert_eq!(b.height, all.height);
        assert_eq!(b.pixels, all.pixels);
    }
    let lines: Vec<Vec<u8>> = vec![vec![b'a'], vec![b'b']];
    assert_eq!(page_lines(&lines, 3, 0), lines);
}

#[test]
fn margins_wider_than_the_canvas() {
    let f = small_font(1);
    let o = ImageOptions {
        text_color: 0,
        background_color: 0xFFFFFF,
        padding: Padding(10, 1),
        width: 6,
        constant_width: true,
        lines: 0,
    };
    // No room for text: each word stands on its own line, nothing is drawn.
    let b = rasterize("ab cd", 0, &f, o).unwrap();
    assert_eq!(b.width, 7);
    assert_eq!(b.height, 3 * 2 + 3);
    assert!(b.pixels.iter().all(|p| *p == BitmapPixel(0xFF, 0xFF, 0xFF)));
}

#[test]
fn font_rejects_bad_tables() {
    assert_eq!(Font::new(0, vec![]).err(), Some(FontError::ZeroHeight));
    assert_eq!(Font::new(2, vec![vec![0u8; 2]; 3]).err(), Some(FontError::WrongGlyphCount));
    let mut glyphs = vec![vec![0u8; 4]; GLYPH_COUNT];
    glyphs[7] = vec![0u8; 3];
    assert_eq!(Font::new(2, glyphs).err(), Some(FontError::BadGlyphLength(7)));
    let mut glyphs = vec![vec![0u8; 4]; GLYPH_COUNT];
    glyphs[3] = vec![];
    assert_eq!(Font::new(2, glyphs).err(), Some(FontError::BadGlyphLength(3)));
}

#[test]
fn measure_maps_unprintable_bytes_to_fallback() {
    let f = small_font(3);
    assert_eq!(calculate_text_length("a\tb", &f), 9);
    assert_eq!(calculate_text_length("", &f), 0);
}

#[test]
fn colors_split_low_byte_first() {
    assert_eq!(split_color(0x1F1E33), BitmapPixel(0x33, 0x1E, 0x1F));
    assert_eq!(split_color(0xFF123456), BitmapPixel(0x56, 0x34, 0x12));
}

#[test]
fn little_endian_bytes() {
    assert_eq!(little_endian(4, 0x0102_0304), vec![4, 3, 2, 1]);
    assert_eq!(little_endian(2, 0x0102_0304), vec![4, 3]);
    assert_eq!(little_endian(0, 7), Vec::<u8>::new());
}

#[test]
fn pagination_windows() {
    let lines: Vec<Vec<u8>> = (0u8..7).map(|k| vec![b'a' + k]).collect();
    assert_eq!(page_lines(&lines, 0, 3), lines);
    assert_eq!(page_lines(&lines, 1, 3), lines[0..3].to_vec());
    assert_eq!(page_lines(&lines, 3, 3), lines[6..7].to_vec());
    assert_eq!(page_lines(&lines, 4, 3), Vec::<Vec<u8>>::new());
    assert_eq!(page_lines(&lines, 9, 3), Vec::<Vec<u8>>::new());
}

fn opts(width: usize, constant_width: bool) -> ImageOptions {
    ImageOptions {
        text_color: 0x0000FF,
        background_color: 0xFFFFFF,
        padding: Padding(2, 1),
        width,
        constant_width,
        lines: 0,
    }
}

#[test]
fn constant_width_canvas() {
    let f = small_font(1);
    for text in ["", "a", "hello there world"] {
        let b = rasterize(text, 0, &f, opts(12, true)).unwrap();
        assert_eq!(b.width, 13);
    }
}

#[test]
fn shrink_to_fit_canvas() {
    let f = small_font(1);
    let b = rasterize("abc", 0, &f, opts(40, false)).unwrap();
    // 3 columns of text, 2 on each side, plus the rounding pixel.
    assert_eq!(b.width, 8);
    // one line of 2 rows, 1 above and below, plus the rounding pixel.
    assert_eq!(b.height, 5);
    assert_eq!(b.pixels.len(), 40);
}

#[test]
fn glyph_samples_paint_text_color() {
    let f = small_font(2);
    let b = rasterize("ab", 0, &f, opts(40, false)).unwrap();
    // width 4 + 4 + 1 = 9, height 2 + 2 + 1 = 5
    assert_eq!((b.width, b.height), (9, 5));
    let text = BitmapPixel(0xFF, 0, 0);
    let bg = BitmapPixel(0xFF, 0xFF, 0xFF);
    let at = |r: usize, c: usize| b.pixels[r * b.width + c];
    // Glyphs start one column past the margin.
    assert_eq!(at(1, 3), text);
    assert_eq!(at(1, 4), bg);
    assert_eq!(at(2, 3), text);
    // The column limit is the width less the margin: 8 - 2 = 6.
    assert_eq!(at(1, 5), text);
    assert_eq!(at(1, 6), bg);
    assert_eq!(at(0, 3), bg);
    assert_eq!(at(3, 3), bg);
    assert_eq!(at(1, 2), bg);
}

#[test]
fn encoded_header_and_size() {
    let f = small_font(1);
    let img = write_text("hi", 0, &f, opts(10, true)).unwrap();
    assert_eq!(&img[0..2], &[0x42, 0x4D]);
    let size = u32::from_le_bytes([img[2], img[3], img[4], img[5]]) as usize;
    assert_eq!(size, img.len());
    // width 11 -> 33 bytes of pixels padded to 36; height 2 + 2 + 1 = 5
    assert_eq!(img.len(), 54 + 36 * 5);
    assert_eq!(u32::from_le_bytes([img[18], img[19], img[20], img[21]]), 11);
    assert_eq!(u32::from_le_bytes([img[22], img[23], img[24], img[25]]), 5);
    assert_eq!(&img[10..14], &[0x36, 0, 0, 0]);
    assert_eq!(&img[26..34], &[1, 0, 0x18, 0, 0, 0, 0, 0]);
}

#[test]
fn rows_are_padded_bottom_up() {
    let buf = PixelBuffer {
        width: 1,
        height: 2,
        pixels: vec![BitmapPixel(1, 2, 3), BitmapPixel(4, 5, 6)],
    };
    let img = encode(&buf);
    assert_eq!(img.len(), 54 + 8);
    assert_eq!(&img[54..], &[4, 5, 6, 0, 1, 2, 3, 0]);
    assert_eq!(encode(&buf), img);
}

#[test]
fn row_stride_is_multiple_of_four() {
    for w in 1..9usize {
        let buf = PixelBuffer { width: w, height: 3, pixels: vec![BitmapPixel(9, 9, 9); w * 3] };
        let img = encode(&buf);
        let stride = (img.len() - 54) / 3;
        assert_eq!(stride % 4, 0);
        assert!(stride >= 3 * w && stride < 3 * w + 4);
    }
}

#[test]
fn pages_of_a_render() {
    let f = small_font(1);
    let mut o = opts(9, true);
    o.lines = 2;
    // 5 words of width 4 on lines of at most 5 give 5 lines.
    let all = rasterize("aaaa bbbb cccc dddd eeee", 0, &f, o).unwrap();
    assert_eq!(all.height, 5 * 2 + 3);
    let first = rasterize("aaaa bbbb cccc dddd eeee", 1, &f, o).unwrap();
    assert_eq!(first.height, 2 * 2 + 3);
    let last = rasterize("aaaa bbbb cccc dddd eeee", 3, &f, o).unwrap();
    assert_eq!(last.height, 2 + 3);
    let past = rasterize("aaaa bbbb cccc dddd eeee", 4, &f, o).unwrap();
    assert_eq!(past.height, 3);
}

#[test]
fn first_page_of_long_text() {
    let f = small_font(1);
    let o = ImageOptions { text_color: 0xFF0000, ..Default::default() };
    let text = "lorem ipsum dolor sit amet ".repeat(2000);
    let all = write_text(&text, 0, &f, o).unwrap();
    let first = write_text(&text, 1, &f, o).unwrap();
    assert_eq!(&first[0..2], &[0x42, 0x4D]);
    // 60 lines of 2 rows and 20-pixel margins, plus the rounding pixel.
    assert_eq!(u32::from_le_bytes([first[22], first[23], first[24], first[25]]), 60 * 2 + 41);
    assert!(all.len() > first.len());
}

#[test]
fn default_options() {
    let o = ImageOptions::default();
    assert_eq!(o.width, 800);
    assert_eq!(o.padding, Padding(20, 20));
    assert_eq!(o.background_color, 0xFFFFFF);
    assert!(o.constant_width);
    assert_eq!(o.lines, 60);
}

#[test]
fn non_ascii_bytes_are_dropped() {
    let f = small_font(1);
    let a = write_text("h\u{e9}llo", 0, &f, opts(40, false)).unwrap();
    let b = write_text("hllo", 0, &f, opts(40, false)).unwrap();
    assert_eq!(a, b);
}

#[test]
fn font_faces_by_name() {
    assert_eq!(FontFace::from_name("times36"), FontFace::Times36);
    assert_eq!(FontFace::from_name("georgia24"), FontFace::Georgia24);
    assert_eq!(FontFace::from_name("fs_brabo30"), FontFace::FsBrabo30);
    assert_eq!(FontFace::from_name("arial18"), FontFace::Arial18);
    assert_eq!(FontFace::from_name("comic12"), FontFace::Times18);
    assert_eq!(FontFace::from_name(""), FontFace::Times18);
    assert_eq!(FontFace::from_name("times3"), FontFace::Times18);
}

#[test]
fn page_rows_match_full_render() {
    let f = small_font(2);
    let mut o = opts(13, true);
    o.lines = 2;
    let text = "ab cd ef gh ij";
    let all = rasterize(text, 0, &f, o).unwrap();
    let page = rasterize(text, 2, &f, o).unwrap();
    assert_eq!(page.width, all.width);
    let w = all.width;
    // Page 2 starts at line 2; each line is 2 rows, under a 1-row margin.
    for row in 0..4 {
        let p = &page.pixels[(1 + row) * w..(2 + row) * w];
        let a = &all.pixels[(1 + 4 + row) * w..(2 + 4 + row) * w];
        assert_eq!(p, a);
    }
}
