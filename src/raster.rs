use crate::bitmap::{bmp_file, le_value, lemma_header_dimensions, lemma_row_length, lemma_signature_and_size, row_bytes, color_pixel, dims_encodable, dims_fit, encode, lemma_stride, row_stride, split_color, BitmapPixel, Canvas, PixelBuffer};
use crate::font::Font;
use crate::layout::{break_apart_bytes, views, wrap_spec, Spliterated};
use vstd::arithmetic::div_mod::lemma_fundamental_div_mod_converse;
use vstd::prelude::*;
use vstd::string::StringSliceAdditionalSpecFns;

verus! {

/// Margins in pixels: horizontal, then vertical; each applies on both edges.
#[derive(Debug, Clone, Copy, PartialEq, Eq, Structural)]
pub struct Padding(pub usize, pub usize);

/// Rendering options.
#[derive(Debug, Clone, Copy, PartialEq, Eq, Structural)]
pub struct ImageOptions {
    /// Text color, packed with its first channel in the lowest byte.
    pub text_color: usize,
    /// Background color, packed as the text color is.
    pub background_color: usize,
    /// The margins around the text.
    pub padding: Padding,
    /// Maximum canvas width.
    pub width: usize,
    /// Whether the canvas always takes the full width.
    pub constant_width: bool,
    /// The number of lines on a page.
    pub lines: usize,
}

impl Default for ImageOptions {
    /// Black text on white, 20-pixel margins, 800 pixels wide, 60 lines a page.
    fn default() -> (r: ImageOptions)
        ensures
            r == (ImageOptions {
                text_color: 0,
                background_color: 0xFFFFFF,
                padding: Padding(20, 20),
                width: 800,
                constant_width: true,
                lines: 60,
            }),
    {
        ImageOptions {
            text_color: 0,
            background_color: 0xFFFFFF,
            padding: Padding(20, 20),
            width: 800,
            constant_width: true,
            lines: 60,
        }
    }
}

/// The lines of page `page` (counted from 1) of `per_page` lines each; page 0,
/// or a page size of 0, is every line, and a page past the end is empty.
pub open spec fn page_spec(lines: Seq<Seq<u8>>, page: nat, per_page: nat) -> Seq<Seq<u8>> {
    if page == 0 || per_page == 0 {
        lines
    } else {
        let lo = if (page - 1) * per_page < lines.len() { ((page - 1) * per_page) as int } else { lines.len() as int };
        let hi = if page * per_page < lines.len() { (page * per_page) as int } else { lines.len() as int };
        lines.subrange(lo, hi)
    }
}

/// Selects the lines of one page; see [`page_spec`].
pub fn page_lines(lines: &Vec<Vec<u8>>, page: usize, per_page: usize) -> (r: Vec<Vec<u8>>)
    ensures
        views(r@) == page_spec(views(lines@), page as nat, per_page as nat),
{
    let n = lines.len() as u128;
    let mut r: Vec<Vec<u8>> = Vec::new();
    assert(views(r@) == Seq::<Seq<u8>>::empty());
    let mut lo: usize = 0;
    let mut hi: usize = lines.len();
    if page > 0 && per_page > 0 {
        assert(page * per_page <= 0xFFFF_FFFF_FFFF_FFFFu128 * 0xFFFF_FFFF_FFFF_FFFFu128) by (nonlinear_arith)
            requires
                page <= 0xFFFF_FFFF_FFFF_FFFFu128,
                per_page <= 0xFFFF_FFFF_FFFF_FFFFu128,
        ;
        assert((page - 1) * per_page <= page * per_page) by (nonlinear_arith)
            requires
                page >= 1,
        ;
        let a = (page as u128 - 1) * per_page as u128;
        let b = page as u128 * per_page as u128;
        lo = if a < n { a as usize } else { lines.len() };
        hi = if b < n { b as usize } else { lines.len() };
        assert(a <= b) by (nonlinear_arith)
            requires
                a == (page - 1) * per_page,
                b == page * per_page,
        ;
    }
    assert(views(lines@).subrange(0, lines@.len() as int) == views(lines@));

    let mut k: usize = lo;
    while k < hi
        invariant
            lo <= k <= hi <= lines@.len(),
            views(r@) == views(lines@).subrange(lo as int, k as int),
        decreases hi - k,
    {
        let line = vstd::slice::slice_to_vec(lines[k].as_slice());
        let ghost before = r@;
        r.push(line);
        assert(views(r@) =~= views(before).push(line@));
        k = k + 1;
    }
    r
}

/// Page `page` (counted from 1) holds at most `per_page` lines, the lines
/// that start at index `(page - 1) * per_page`; page 0, or a page size of 0,
/// holds them all.
pub proof fn lemma_pagination(lines: Seq<Seq<u8>>, page: nat, per_page: nat)
    ensures
        page == 0 || per_page == 0 ==> page_spec(lines, page, per_page) == lines,
        page >= 1 ==> page_spec(lines, page, per_page).len() <= per_page || per_page == 0,
        page >= 1 && per_page >= 1 ==> forall|k: int|
            0 <= k < page_spec(lines, page, per_page).len() ==> #[trigger] page_spec(lines, page, per_page)[k]
                == lines[(page - 1) * per_page + k],
{
    if page >= 1 {
        assert((page - 1) * per_page + per_page == page * per_page) by (nonlinear_arith);
    }
}

/// The color a glyph sample paints: the text color where the sample is set,
/// the background elsewhere.
pub open spec fn alpha_pixel(alpha: u8, text: BitmapPixel, bg: BitmapPixel) -> BitmapPixel {
    if alpha != 0 { text } else { bg }
}

/// Row `r` of the glyphs of `line`, side by side.
pub open spec fn glyph_columns(font: &Font, line: Seq<u8>, r: nat, text: BitmapPixel, bg: BitmapPixel) -> Seq<BitmapPixel>
    decreases line.len(),
{
    if line.len() == 0 {
        Seq::empty()
    } else {
        let b = line.last();
        let w = font.advance(b);
        glyph_columns(font, line.drop_last(), r, text, bg)
            + Seq::new(w, |c: int| alpha_pixel(font.glyph_of(b)[r * w + c], text, bg))
    }
}

/// The column where drawing stops on a canvas `cw` pixels wide: the width
/// before rounding less the right margin, or 0 when the margin is wider.
pub open spec fn column_limit(cw: nat, pad: nat) -> nat {
    if cw >= pad + 1 { (cw - 1 - pad) as nat } else { 0 }
}

/// The width left for text between the margins, or 0 when they fill the width.
pub open spec fn text_width(o: ImageOptions) -> nat {
    if o.width >= 2 * o.padding.0 { (o.width - 2 * o.padding.0) as nat } else { 0 }
}

/// One canvas row of `cw` pixels crossing a text line: the glyph columns from
/// column `start` on, cut at column `limit`; background elsewhere.
pub open spec fn text_row(draw: Seq<BitmapPixel>, start: nat, limit: nat, cw: nat, bg: BitmapPixel) -> Seq<BitmapPixel> {
    Seq::new(cw, |j: int| if start <= j < limit && j - start < draw.len() { draw[j - start] } else { bg })
}

/// Row `i` of a canvas `cw` pixels wide that shows `lines`.
pub open spec fn canvas_row(font: &Font, lines: Seq<Seq<u8>>, o: ImageOptions, cw: nat, i: int) -> Seq<BitmapPixel> {
    let h = font.spec_height();
    let pv = o.padding.1;
    let text = color_pixel(o.text_color);
    let bg = color_pixel(o.background_color);
    if pv <= i < pv + lines.len() * h {
        let draw = glyph_columns(font, lines[(i - pv) / h as int], ((i - pv) % h as int) as nat, text, bg);
        text_row(draw, (o.padding.0 + 1) as nat, column_limit(cw, o.padding.0 as nat), cw, bg)
    } else {
        Seq::new(cw, |j: int| bg)
    }
}

/// The first `k` rows of the canvas, top to bottom.
pub open spec fn canvas_pixels(font: &Font, lines: Seq<Seq<u8>>, o: ImageOptions, cw: nat, k: nat) -> Seq<BitmapPixel>
    decreases k,
{
    if k == 0 {
        Seq::empty()
    } else {
        canvas_pixels(font, lines, o, cw, (k - 1) as nat) + canvas_row(font, lines, o, cw, k - 1)
    }
}

/// Canvas width: the full width, or the widest line with its margins; one
/// pixel is added in rounding up.
pub open spec fn canvas_width(o: ImageOptions, layout_width: nat) -> nat {
    (if o.constant_width { o.width as nat } else { (layout_width + 2 * o.padding.0) as nat }) + 1
}

/// Canvas height for `n` lines; one pixel is added in rounding up.
pub open spec fn canvas_height(font: &Font, o: ImageOptions, n: nat) -> nat {
    (n * font.spec_height() + 2 * o.padding.1 + 1) as nat
}

/// The bytes of `s` below 0x7F.
pub open spec fn ascii_bytes(s: Seq<u8>) -> Seq<u8>
    decreases s.len(),
{
    if s.len() == 0 {
        s
    } else if s.last() < 0x7F {
        ascii_bytes(s.drop_last()).push(s.last())
    } else {
        ascii_bytes(s.drop_last())
    }
}

/// The layout that a render of `text` uses: lines and widest width.
pub open spec fn render_layout(font: &Font, text: Seq<u8>, o: ImageOptions) -> (Seq<Seq<u8>>, nat) {
    wrap_spec(font, ascii_bytes(text), text_width(o))
}

/// With `constant_width` set, the canvas is as wide as the options say,
/// rounded up by one pixel, whatever the text and the page.
pub proof fn lemma_constant_width(font: &Font, text: Seq<u8>, page: nat, o: ImageOptions)
    requires
        o.constant_width,
    ensures
        render_spec(font, text, page, o).width == o.width + 1,
{
}

fn ascii_filter(s: &[u8]) -> (r: Vec<u8>)
    ensures
        r@ == ascii_bytes(s@),
{
    let mut r: Vec<u8> = Vec::new();
    let mut i: usize = 0;
    while i < s.len()
        invariant
            i <= s@.len(),
            r@ == ascii_bytes(s@.subrange(0, i as int)),
        decreases s@.len() - i,
    {
        assert(s@.subrange(0, i + 1).drop_last() == s@.subrange(0, i as int));
        if s[i] < 0x7F {
            r.push(s[i]);
        }
        i = i + 1;
    }
    assert(s@.subrange(0, i as int) == s@);
    r
}

/// One channel of the text color blended over itself by `alpha`.
fn blend(channel: u8, alpha: u8) -> (r: u8)
    ensures
        r == channel,
{
    let c = channel as u32;
    let a = alpha as u32;
    assert(c * a <= 255 * 255 && c * (255 - a) <= 255 * 255 && c * a + c * (255 - a) == 255 * c) by (nonlinear_arith)
        requires
            c <= 255,
            a <= 255,
    ;
    let mixed = (c * a + c * (255 - a)) / 255;
    if mixed < 255 { mixed as u8 } else { 255 }
}

fn paint(alpha: u8, text: BitmapPixel, bg: BitmapPixel) -> (r: BitmapPixel)
    ensures
        r == alpha_pixel(alpha, text, bg),
{
    if alpha != 0 {
        BitmapPixel(blend(text.0, alpha), blend(text.1, alpha), blend(text.2, alpha))
    } else {
        bg
    }
}

fn glyph_columns_exec(font: &Font, line: &Vec<u8>, r: usize, text: BitmapPixel, bg: BitmapPixel) -> (out: Vec<BitmapPixel>)
    requires
        font.wf(),
        r < font.spec_height(),
    ensures
        out@ == glyph_columns(font, line@, r as nat, text, bg),
{
    let mut out: Vec<BitmapPixel> = Vec::new();
    let mut k: usize = 0;
    while k < line.len()
        invariant
            font.wf(),
            r < font.spec_height(),
            k <= line@.len(),
            out@ == glyph_columns(font, line@.subrange(0, k as int), r as nat, text, bg),
        decreases line@.len() - k,
    {
        let b = line[k];
        let g = font.glyph(b);
        let w = font.glyph_width(b);
        let ghost h = font.spec_height() as int;
        proof {
            assert(line@.subrange(0, k + 1).drop_last() == line@.subrange(0, k as int));
            assert(font.glyph_of(b).len() % font.spec_height() == 0);
            vstd::arithmetic::div_mod::lemma_fundamental_div_mod(g@.len() as int, h);
        }
        let ghost before = out@;
        let glen = g.len();
        let mut c: usize = 0;
        while c < w
            invariant
                font.wf(),
                r < font.spec_height(),
                g@ == font.glyph_of(b),
                w == font.advance(b),
                g@.len() == h * w,
                glen == g@.len(),
                h == font.spec_height(),
                c <= w,
                out@ == before + Seq::new(c as nat, |m: int| alpha_pixel(font.glyph_of(b)[r * w + m], text, bg)),
            decreases w - c,
        {
            assert(r * w + c < h * w) by (nonlinear_arith)
                requires
                    r < h,
                    c < w,
            ;
            assert(r * w + c < g@.len());
            let p = paint(g[r * w + c], text, bg);
            out.push(p);
            c = c + 1;
            assert(out@ == before + Seq::new(c as nat, |m: int| alpha_pixel(font.glyph_of(b)[r * w + m], text, bg)));
        }
        k = k + 1;
    }
    assert(line@.subrange(0, k as int) == line@);
    out
}

/// The canvas that a render of `text` produces, whether or not it can be encoded.
pub open spec fn render_spec(font: &Font, text: Seq<u8>, page: nat, o: ImageOptions) -> Canvas {
    let (all, lw) = render_layout(font, text, o);
    let lines = page_spec(all, page, o.lines as nat);
    let cw = canvas_width(o, lw);
    let ch = canvas_height(font, o, lines.len());
    Canvas { width: cw, height: ch, pixels: canvas_pixels(font, lines, o, cw, ch) }
}

proof fn lemma_too_large(cw: nat, ch: nat)
    requires
        cw >= 1,
        cw > 0xFFFF_FFFF_FFFF_FFFF || ch > 0xFFFF_FFFF_FFFF_FFFF,
    ensures
        !dims_encodable(cw, ch),
{
    lemma_stride(cw);
    let st = row_stride(cw);
    if cw <= 0xFFFF_FFFF_FFFF_FFFF {
        assert(st * ch >= ch) by (nonlinear_arith)
            requires
                st >= 3,
        ;
    }
}

/// Draws `text` onto a canvas: the text is laid out within the width left by
/// the margins, page `page` of it is kept (0 keeps every line), and each
/// glyph sample that is set paints the text color over the background.
/// Gives `None` when the canvas is too large for a bitmap file.
pub fn rasterize(text: &str, page: usize, font: &Font, options: ImageOptions) -> (r: Option<PixelBuffer>)
    requires
        font.wf(),
    ensures
        match r {
            Some(b) => b.wf() && b@ == render_spec(font, text.spec_bytes(), page as nat, options)
                && dims_encodable(b.width as nat, b.height as nat),
            None => !dims_encodable(
                render_spec(font, text.spec_bytes(), page as nat, options).width,
                render_spec(font, text.spec_bytes(), page as nat, options).height,
            ),
        },
{
    let filtered = ascii_filter(text.as_bytes());
    let margins = 2 * options.padding.0 as u128;
    let max_width: u128 = if options.width as u128 >= margins { options.width as u128 - margins } else { 0 };
    let lay = break_apart_bytes(filtered.as_slice(), max_width, font);
    let lines = page_lines(&lay.split, page, options.lines);
    let ghost lv = views(lines@);
    let ghost spec = render_spec(font, text.spec_bytes(), page as nat, options);
    let ph = options.padding.0;
    let pv = options.padding.1;
    let wide: u128 = if options.constant_width {
        options.width as u128
    } else {
        if lay.width > 0xFFFF_FFFF_FFFF_FFFF {
            proof {
                lemma_too_large(spec.width, spec.height);
            }
            return None;
        }
        lay.width + 2 * ph as u128
    };
    let cw128 = wide + 1;
    let n = lines.len() as u128;
    let h = font.height() as u128;
    assert(n * h <= 0xFFFF_FFFF_FFFF_FFFFu128 * 0xFFFF_FFFF_FFFF_FFFFu128) by (nonlinear_arith)
        requires
            n <= 0xFFFF_FFFF_FFFF_FFFFu128,
            h <= 0xFFFF_FFFF_FFFF_FFFFu128,
    ;
    if n * h > 0xFFFF_FFFF_FFFF_FFFF {
        proof {
            lemma_too_large(spec.width, spec.height);
        }
        return None;
    }
    let ch128 = n * h + 2 * pv as u128 + 1;
    assert(spec.width == cw128 && spec.height == ch128);
    if !dims_fit(cw128, ch128) {
        return None;
    }
    proof {
        lemma_stride(cw128 as nat);
        let st = row_stride(cw128 as nat);
        assert(cw128 * ch128 <= st * ch128 && ch128 <= st * ch128) by (nonlinear_arith)
            requires
                cw128 <= st,
                st >= 3,
        ;
        assert(cw128 <= 0xFFFF_FFFF && ch128 <= 0xFFFF_FFFF);
    }
    let cw = cw128 as usize;
    let ch = ch128 as usize;
    let hu = font.height();
    let band_end = (n * h) as usize + pv;
    let text_px = split_color(options.text_color);
    let bg = split_color(options.background_color);
    let limit = if cw > ph { cw - 1 - ph } else { 0 };
    let mut pixels: Vec<BitmapPixel> = Vec::new();
    let mut i: usize = 0;
    while i < ch
        invariant
            font.wf(),
            i <= ch,
            cw == spec.width,
            ch == spec.height,
            hu == font.spec_height(),
            lv == views(lines@),
            spec.pixels == canvas_pixels(font, lv, options, cw as nat, ch as nat),
            band_end == pv + lv.len() * hu,
            limit == column_limit(cw as nat, ph as nat),
            ph == options.padding.0,
            pv == options.padding.1,
            text_px == color_pixel(options.text_color),
            bg == color_pixel(options.background_color),
            pixels@ == canvas_pixels(font, lv, options, cw as nat, i as nat),
            pixels@.len() == i * cw,
            cw * ch <= 0xFFFF_FFFF,
        decreases ch - i,
    {
        let ghost before = pixels@;
        if pv <= i && i < band_end {
            let li = (i - pv) / hu;
            let r = (i - pv) % hu;
            assert(li < lv.len()) by (nonlinear_arith)
                requires
                    li == (i - pv) / (hu as int),
                    i - pv < lv.len() * hu,
                    hu > 0,
            ;
            assert(lines@[li as int]@ == lv[li as int]);
            let draw = glyph_columns_exec(font, &lines[li], r, text_px, bg);
            let mut j: usize = 0;
            while j < cw
                invariant
                    j <= cw,
                            pixels@ == before + Seq::new(j as nat, |m: int| if ph + 1 <= m < limit && m - (ph + 1) < draw@.len() { draw@[m - (ph + 1)] } else { bg }),
                decreases cw - j,
            {
                let p = if ph < j && j < limit && j - ph - 1 < draw.len() { draw[j - ph - 1] } else { bg };
                pixels.push(p);
                j = j + 1;
                assert(pixels@ == before + Seq::new(j as nat, |m: int| if ph + 1 <= m < limit && m - (ph + 1) < draw@.len() { draw@[m - (ph + 1)] } else { bg }));
            }
            assert(pixels@ == before + canvas_row(font, lv, options, cw as nat, i as int));
        } else {
            let mut j: usize = 0;
            while j < cw
                invariant
                    j <= cw,
                    pixels@ == before + Seq::new(j as nat, |m: int| bg),
                decreases cw - j,
            {
                pixels.push(bg);
                j = j + 1;
                assert(pixels@ == before + Seq::new(j as nat, |m: int| bg));
            }
            assert(pixels@ == before + canvas_row(font, lv, options, cw as nat, i as int));
        }
        assert(i * cw + cw == (i + 1) * cw) by (nonlinear_arith);
        i = i + 1;
    }
    assert(ch * cw == cw * ch) by (nonlinear_arith);
    let buf = PixelBuffer { width: cw, height: ch, pixels };
    assert(buf.wf());
    assert(buf@ == spec);
    Some(buf)
}

/// Renders `text` as a bitmap file; see [`rasterize`] and [`encode`].
/// Gives `None` when the image is too large for a bitmap file.
pub fn write_text(text: &str, page: usize, font: &Font, options: ImageOptions) -> (r: Option<Vec<u8>>)
    requires
        font.wf(),
    ensures
        ({
            let c = render_spec(font, text.spec_bytes(), page as nat, options);
            match r {
                Some(bytes) => dims_encodable(c.width, c.height) && bytes@ == bmp_file(c),
                None => !dims_encodable(c.width, c.height),
            }
        }),
{
    match rasterize(text, page, font, options) {
        Some(buf) => Some(encode(&buf)),
        None => None,
    }
}

/// What a written file states: the signature "BM", its own length, the
/// canvas width (the option's width plus one when it is constant) and
/// height, and rows whose length is a multiple of four.
pub proof fn lemma_written_file(font: &Font, text: Seq<u8>, page: nat, o: ImageOptions)
    requires
        dims_encodable(render_spec(font, text, page, o).width, render_spec(font, text, page, o).height),
    ensures
        ({
            let c = render_spec(font, text, page, o);
            let f = bmp_file(c);
            &&& f.subrange(0, 2) == seq![0x42u8, 0x4Du8]
            &&& le_value(f.subrange(2, 6)) == f.len()
            &&& le_value(f.subrange(18, 22)) == c.width
            &&& le_value(f.subrange(22, 26)) == c.height
            &&& (o.constant_width ==> le_value(f.subrange(18, 22)) == o.width + 1)
            &&& forall|row: int| #[trigger] row_bytes(c, row).len() % 4 == 0
        }),
{
    let c = render_spec(font, text, page, o);
    lemma_signature_and_size(c);
    lemma_header_dimensions(c);
    assert forall|row: int| #[trigger] row_bytes(c, row).len() % 4 == 0 by {
        lemma_row_length(c, row);
    }
}

proof fn lemma_canvas_len(font: &Font, lines: Seq<Seq<u8>>, o: ImageOptions, cw: nat, k: nat)
    ensures
        canvas_pixels(font, lines, o, cw, k).len() == k * cw,
    decreases k,
{
    if k > 0 {
        lemma_canvas_len(font, lines, o, cw, (k - 1) as nat);
        assert((k - 1) * cw + cw == k * cw) by (nonlinear_arith);
    } else {
        assert(k * cw == 0) by (nonlinear_arith)
            requires
                k == 0,
        ;
    }
}

/// Row `i` of a canvas is the `cw` pixels that start at `i * cw`.
pub proof fn lemma_canvas_row(font: &Font, lines: Seq<Seq<u8>>, o: ImageOptions, cw: nat, k: nat, i: nat)
    requires
        i < k,
    ensures
        canvas_pixels(font, lines, o, cw, k).subrange((i * cw) as int, (i * cw + cw) as int) == canvas_row(font, lines, o, cw, i as int),
    decreases k,
{
    lemma_canvas_len(font, lines, o, cw, (k - 1) as nat);
    let prev = canvas_pixels(font, lines, o, cw, (k - 1) as nat);
    if i + 1 < k {
        lemma_canvas_row(font, lines, o, cw, (k - 1) as nat, i);
        assert(i * cw + cw <= (k - 1) * cw) by (nonlinear_arith)
            requires
                i + 1 <= k - 1,
        ;
        assert(canvas_pixels(font, lines, o, cw, k).subrange((i * cw) as int, (i * cw + cw) as int) == prev.subrange((i * cw) as int, (i * cw + cw) as int));
    } else {
        assert(i * cw == (k - 1) * cw);
        assert(canvas_pixels(font, lines, o, cw, k).subrange((i * cw) as int, (i * cw + cw) as int) == canvas_row(font, lines, o, cw, i as int));
    }
}

/// A page shows exactly its lines of the full render: the page canvas is as
/// wide as the full one, and row `y` of its line `r` is row `y` of line
/// `(page - 1) * lines + r` of the full canvas.
pub proof fn lemma_page_matches_full(font: &Font, text: Seq<u8>, page: nat, o: ImageOptions, r: nat, y: nat)
    requires
        font.wf(),
        page >= 1,
        o.lines >= 1,
        r < page_spec(render_layout(font, text, o).0, page, o.lines as nat).len(),
        y < font.spec_height(),
    ensures
        render_spec(font, text, page, o).width == render_spec(font, text, 0, o).width,
        ({
            let h = font.spec_height();
            let all = render_layout(font, text, o).0;
            let cw = render_spec(font, text, 0, o).width;
            canvas_row(font, page_spec(all, page, o.lines as nat), o, cw, o.padding.1 + r * h + y)
                == canvas_row(font, all, o, cw, o.padding.1 + ((page - 1) * o.lines + r) * h + y)
        }),
{
    let h = font.spec_height() as int;
    let n = o.lines as nat;
    let all = render_layout(font, text, o).0;
    let paged = page_spec(all, page, n);
    let q = (page - 1) * n + r;
    lemma_pagination(all, page, n);
    let lo = (page - 1) * n;
    assert(page * n == lo + n) by (nonlinear_arith)
        requires
            lo == (page - 1) * n,
    ;
    if lo >= all.len() {
        assert(paged.len() == 0);
    }
    assert(q < all.len());
    assert(paged[r as int] == all[q]);
    let pv = o.padding.1 as int;
    let i1 = pv + r * h + y;
    let i2 = pv + q * h + y;
    lemma_fundamental_div_mod_converse(i1 - pv, h, r as int, y as int);
    lemma_fundamental_div_mod_converse(i2 - pv, h, q, y as int);
    assert(r * h + y < paged.len() * h) by (nonlinear_arith)
        requires
            r < paged.len(),
            y < h,
    ;
    assert(q * h + y < all.len() * h) by (nonlinear_arith)
        requires
            q < all.len(),
            y < h,
    ;
}

} // verus!
