use vstd::prelude::*;

verus! {

/// One pixel as three channel bytes, in the order they are written to the file.
#[derive(Debug, Clone, Copy, PartialEq, Eq, Structural)]
pub struct BitmapPixel(pub u8, pub u8, pub u8);

/// Size in bytes of the file header that precedes the pixel rows.
pub const HEADER_SIZE: usize = 54;

/// The largest file size that the header's 32-bit size field can state.
pub const MAX_FILE_SIZE: u64 = 0xFFFF_FFFF;

/// The channels of a packed color, lowest byte first.
pub open spec fn color_pixel(color: usize) -> BitmapPixel {
    BitmapPixel((color % 256) as u8, (color / 256 % 256) as u8, (color / 65536 % 256) as u8)
}

/// Splits a packed color into its three lowest bytes, lowest first.
pub fn split_color(color: usize) -> (r: BitmapPixel)
    ensures
        r == color_pixel(color),
{
    let c0 = color & 0xFF;
    let c1 = (color & 0xFF00) >> 8;
    let c2 = (color & 0xFF0000) >> 16;
    assert(c0 == color % 256 && c1 == color / 256 % 256 && c2 == color / 65536 % 256) by (bit_vector)
        requires
            c0 == color & 0xFF,
            c1 == (color & 0xFF00) >> 8,
            c2 == (color & 0xFF0000) >> 16,
    ;
    BitmapPixel(c0 as u8, c1 as u8, c2 as u8)
}

/// The `n` lowest bytes of `d`, lowest first.
pub open spec fn le_bytes(n: nat, d: nat) -> Seq<u8>
    decreases n,
{
    if n == 0 {
        Seq::empty()
    } else {
        seq![(d % 256) as u8] + le_bytes((n - 1) as nat, d / 256)
    }
}

/// The number that little-endian bytes stand for.
pub open spec fn le_value(s: Seq<u8>) -> nat
    decreases s.len(),
{
    if s.len() == 0 {
        0
    } else {
        s[0] as nat + 256 * le_value(s.drop_first())
    }
}

/// The `size` lowest bytes of `data`, lowest first.
pub fn little_endian(size: usize, data: usize) -> (r: Vec<u8>)
    requires
        size <= 8,
    ensures
        r@ == le_bytes(size as nat, data as nat),
{
    let mut r: Vec<u8> = Vec::new();
    let mut d: usize = data;
    let mut i: usize = 0;
    while i < size
        invariant
            i <= size,
            r@ + le_bytes((size - i) as nat, d as nat) == le_bytes(size as nat, data as nat),
        decreases size - i,
    {
        let b = d & 0xFF;
        let next = d >> 8;
        assert(b == d % 256 && next == d / 256) by (bit_vector)
            requires
                b == d & 0xFF,
                next == d >> 8,
        ;
        let ghost rest = le_bytes((size - i - 1) as nat, next as nat);
        assert(le_bytes((size - i) as nat, d as nat) == seq![b as u8] + rest);
        r.push(b as u8);
        assert(r@ + rest == le_bytes(size as nat, data as nat));
        d = next;
        i = i + 1;
    }
    assert(r@ + Seq::<u8>::empty() == r@);
    r
}

/// A canvas of `width * height` pixels, stored row by row from the top.
pub struct PixelBuffer {
    pub width: usize,
    pub height: usize,
    pub pixels: Vec<BitmapPixel>,
}

impl PixelBuffer {
    /// The pixel vector holds exactly `width * height` pixels.
    pub open spec fn wf(&self) -> bool {
        self.pixels@.len() == self.width * self.height
    }

    /// Whether the whole file fits the 32-bit fields of the header.
    pub open spec fn encodable_spec(&self) -> bool {
        dims_encodable(self.width as nat, self.height as nat)
    }

    /// Whether the whole file fits the 32-bit fields of the header.
    pub fn encodable(&self) -> (r: bool)
        ensures
            r == self.encodable_spec(),
    {
        dims_fit(self.width as u128, self.height as u128)
    }
}

/// The canvas as a mathematical value.
pub struct Canvas {
    pub width: nat,
    pub height: nat,
    pub pixels: Seq<BitmapPixel>,
}

impl Canvas {
    /// The pixel at `row` and `col`, counted from the top left.
    pub open spec fn at(&self, row: int, col: int) -> BitmapPixel {
        self.pixels[row * self.width + col]
    }
}

impl View for PixelBuffer {
    type V = Canvas;

    open spec fn view(&self) -> Canvas {
        Canvas { width: self.width as nat, height: self.height as nat, pixels: self.pixels@ }
    }
}

/// Whether a file for a canvas of these dimensions fits the 32-bit fields of the header.
pub open spec fn dims_encodable(width: nat, height: nat) -> bool {
    &&& row_stride(width) <= MAX_FILE_SIZE
    &&& HEADER_SIZE + row_stride(width) * height <= MAX_FILE_SIZE
}

/// Whether a file for a canvas of these dimensions fits the 32-bit fields of the header.
pub fn dims_fit(width: u128, height: u128) -> (r: bool)
    requires
        width <= 0x1_0000_0000_0000_0000_0000u128,
        height <= 0x1_0000_0000_0000_0000_0000u128,
    ensures
        r == dims_encodable(width as nat, height as nat),
{
    let stride = (width * 3 + 3) / 4 * 4;
    assert(stride == row_stride(width as nat));
    if stride > 0xFFFF_FFFF {
        return false;
    }
    assert(stride * height <= 0xFFFF_FFFF * 0x1_0000_0000_0000_0000_0000u128) by (nonlinear_arith)
        requires
            stride <= 0xFFFF_FFFF,
            height <= 0x1_0000_0000_0000_0000_0000u128,
    ;
    54 + stride * height <= 0xFFFF_FFFF
}

/// Bytes per encoded row: three per pixel, padded to a multiple of four.
pub open spec fn row_stride(width: nat) -> nat {
    (3 * width + 3) / 4 * 4
}

/// The three channel bytes of a pixel, in file order.
pub open spec fn pixel_bytes(p: BitmapPixel) -> Seq<u8> {
    seq![p.0, p.1, p.2]
}

/// The channel bytes of the first `n` pixels of row `row`.
pub open spec fn row_pixels(buf: Canvas, row: int, n: nat) -> Seq<u8>
    decreases n,
{
    if n == 0 {
        Seq::empty()
    } else {
        row_pixels(buf, row, (n - 1) as nat) + pixel_bytes(buf.at(row, n - 1))
    }
}

/// One encoded row: its pixels, then zero bytes up to the row stride.
pub open spec fn row_bytes(buf: Canvas, row: int) -> Seq<u8> {
    let px = row_pixels(buf, row, buf.width as nat);
    px + Seq::new((row_stride(buf.width as nat) - px.len()) as nat, |i: int| 0u8)
}

/// The encoded rows from `hi - 1` down to `lo`.
pub open spec fn rows_down(buf: Canvas, hi: int, lo: int) -> Seq<u8>
    decreases hi - lo,
{
    if lo >= hi {
        Seq::empty()
    } else {
        rows_down(buf, hi, lo + 1) + row_bytes(buf, lo)
    }
}

/// The fixed-size header of a file with the given canvas and pixel data size.
pub open spec fn bmp_header(width: nat, height: nat, data_size: nat) -> Seq<u8> {
    seq![0x42u8, 0x4Du8] + le_bytes(4, (HEADER_SIZE + data_size) as nat)
        + seq![0u8, 0, 0, 0, 0x36, 0, 0, 0, 0x28, 0, 0, 0]
        + le_bytes(4, width) + le_bytes(4, height)
        + seq![1u8, 0, 0x18, 0, 0, 0, 0, 0]
        + le_bytes(4, data_size)
        + seq![0x13u8, 0x0B, 0, 0, 0x13, 0x0B, 0, 0]
        + seq![0u8, 0, 0, 0, 0, 0, 0, 0]
}

/// The whole file: header, then the rows bottom to top.
pub open spec fn bmp_file(buf: Canvas) -> Seq<u8> {
    bmp_header(buf.width as nat, buf.height as nat, (row_stride(buf.width as nat) * buf.height) as nat)
        + rows_down(buf, buf.height as int, 0)
}

proof fn lemma_row_pixels_len(buf: Canvas, row: int, n: nat)
    ensures
        row_pixels(buf, row, n).len() == 3 * n,
    decreases n,
{
    if n > 0 {
        lemma_row_pixels_len(buf, row, (n - 1) as nat);
    }
}

/// A row stride is a multiple of four that holds three bytes per pixel.
pub proof fn lemma_stride(width: nat)
    ensures
        row_stride(width) % 4 == 0,
        3 * width <= row_stride(width),
{
    let s = 3 * width + 3;
    assert((s / 4 * 4) % 4 == 0) by (nonlinear_arith)
        requires
            s >= 0,
    ;
    vstd::arithmetic::div_mod::lemma_fundamental_div_mod(s as int, 4);
}

fn push_bytes(r: &mut Vec<u8>, s: &[u8])
    ensures
        final(r)@ == old(r)@ + s@,
{
    let mut i: usize = 0;
    while i < s.len()
        invariant
            i <= s@.len(),
            r@ == old(r)@ + s@.subrange(0, i as int),
        decreases s@.len() - i,
    {
        r.push(s[i]);
        i = i + 1;
        assert(r@ == old(r)@ + s@.subrange(0, i as int));
    }
    assert(s@.subrange(0, i as int) == s@);
}

/// Encodes a canvas as an uncompressed 24-bit bitmap file: a 54-byte header,
/// then the rows from bottom to top, each padded with zeros to a multiple of
/// four bytes.
pub fn encode(buf: &PixelBuffer) -> (r: Vec<u8>)
    requires
        buf.wf(),
        buf.encodable_spec(),
    ensures
        r@ == bmp_file(buf@),
{
    let w = buf.width;
    let h = buf.height;
    proof {
        lemma_stride(w as nat);
    }
    let stride = (w * 3 + 3) / 4 * 4;
    let data_size = stride * h;
    let mut ret: Vec<u8> = Vec::new();
    push_bytes(&mut ret, &[0x42u8, 0x4D]);
    push_bytes(&mut ret, little_endian(4, data_size + HEADER_SIZE).as_slice());
    push_bytes(&mut ret, &[0u8, 0, 0, 0, 0x36, 0, 0, 0, 0x28, 0, 0, 0]);
    push_bytes(&mut ret, little_endian(4, w).as_slice());
    push_bytes(&mut ret, little_endian(4, h).as_slice());
    push_bytes(&mut ret, &[1u8, 0, 0x18, 0, 0, 0, 0, 0]);
    push_bytes(&mut ret, little_endian(4, data_size).as_slice());
    push_bytes(&mut ret, &[0x13u8, 0x0B, 0, 0, 0x13, 0x0B, 0, 0]);
    push_bytes(&mut ret, &[0u8, 0, 0, 0, 0, 0, 0, 0]);
    let ghost header = ret@;
    assert(header == bmp_header(w as nat, h as nat, (row_stride(w as nat) * h) as nat));
    let mut i: usize = h;
    while i > 0
        invariant
            buf.wf(),
            w == buf.width,
            h == buf.height,
            stride == row_stride(w as nat),
            3 * w <= stride,
            i <= h,
            ret@ == header + rows_down(buf@, h as int, i as int),
        decreases i,
    {
        i = i - 1;
        let ghost before = ret@;
        let mut j: usize = 0;
        while j < w
            invariant
                buf.wf(),
                w == buf.width,
                h == buf.height,
                i < h,
                j <= w,
                ret@ == before + row_pixels(buf@, i as int, j as nat),
            decreases w - j,
        {
            let n = buf.pixels.len();
            assert(i * w + j < w * h) by (nonlinear_arith)
                requires
                    i < h,
                    j < w,
            ;
            assert(i * w + j < n);
            let p = buf.pixels[i * w + j];
            ret.push(p.0);
            ret.push(p.1);
            ret.push(p.2);
            j = j + 1;
            assert(ret@ == before + row_pixels(buf@, i as int, j as nat));
        }
        proof {
            lemma_row_pixels_len(buf@, i as int, w as nat);
        }
        let mut k: usize = 3 * w;
        let ghost px = ret@;
        while k < stride
            invariant
                3 * w <= k <= stride,
                ret@ == px + Seq::new((k - 3 * w) as nat, |m: int| 0u8),
            decreases stride - k,
        {
            ret.push(0);
            k = k + 1;
            assert(ret@ == px + Seq::new((k - 3 * w) as nat, |m: int| 0u8));
        }
        assert(ret@ == header + rows_down(buf@, h as int, i as int));
    }
    ret
}

/// 256 to the power `n`.
pub open spec fn pow256(n: nat) -> nat
    decreases n,
{
    if n == 0 { 1 } else { 256 * pow256((n - 1) as nat) }
}

proof fn lemma_le_len(n: nat, d: nat)
    ensures
        le_bytes(n, d).len() == n,
    decreases n,
{
    if n > 0 {
        lemma_le_len((n - 1) as nat, d / 256);
    }
}

proof fn lemma_le_round_trip(n: nat, d: nat)
    requires
        d < pow256(n),
    ensures
        le_bytes(n, d).len() == n,
        le_value(le_bytes(n, d)) == d,
    decreases n,
{
    if n > 0 {
        assert(d / 256 < pow256((n - 1) as nat)) by {
            vstd::arithmetic::div_mod::lemma_fundamental_div_mod(d as int, 256);
        }
        lemma_le_round_trip((n - 1) as nat, d / 256);
        assert(le_bytes(n, d).drop_first() == le_bytes((n - 1) as nat, d / 256));
        vstd::arithmetic::div_mod::lemma_fundamental_div_mod(d as int, 256);
    }
}

proof fn lemma_rows_down_len(buf: Canvas, hi: int, lo: int)
    requires
        lo <= hi,
    ensures
        rows_down(buf, hi, lo).len() == (hi - lo) * row_stride(buf.width as nat),
    decreases hi - lo,
{
    let st = row_stride(buf.width as nat) as int;
    if lo < hi {
        lemma_rows_down_len(buf, hi, lo + 1);
        lemma_row_length(buf, lo);
        assert(rows_down(buf, hi, lo) == rows_down(buf, hi, lo + 1) + row_bytes(buf, lo));
        assert((hi - (lo + 1)) * st + st == (hi - lo) * st) by (nonlinear_arith);
    } else {
        assert((hi - lo) * st == 0) by (nonlinear_arith)
            requires
                hi == lo,
        ;
    }
}

/// Every encoded row, pixels and padding together, is `row_stride` bytes
/// long, and that length is a multiple of four.
pub proof fn lemma_row_length(buf: Canvas, row: int)
    ensures
        row_bytes(buf, row).len() == row_stride(buf.width as nat),
        row_bytes(buf, row).len() % 4 == 0,
{
    lemma_row_pixels_len(buf, row, buf.width as nat);
    lemma_stride(buf.width as nat);
}

/// An encoded file starts with the signature "BM", and the size that its
/// header states is the number of bytes in the file.
pub proof fn lemma_signature_and_size(buf: Canvas)
    requires
        dims_encodable(buf.width, buf.height),
    ensures
        bmp_file(buf).subrange(0, 2) == seq![0x42u8, 0x4Du8],
        le_value(bmp_file(buf).subrange(2, 6)) == bmp_file(buf).len(),
{
    let size = (HEADER_SIZE + row_stride(buf.width as nat) * buf.height) as nat;
    assert(pow256(0) == 1);
    assert(pow256(1) == 256);
    assert(pow256(2) == 65536);
    assert(pow256(3) == 16777216);
    assert(pow256(4) == 0x1_0000_0000);
    lemma_le_round_trip(4, size);
    lemma_rows_down_len(buf, buf.height as int, 0);
    let data = (row_stride(buf.width as nat) * buf.height) as nat;
    lemma_le_len(4, buf.width as nat);
    lemma_le_len(4, buf.height as nat);
    lemma_le_len(4, data);
    let f = bmp_file(buf);
    let hd = bmp_header(buf.width as nat, buf.height as nat, data);
    assert(hd.len() == 54);
    let st = row_stride(buf.width as nat) as int;
    let h = buf.height as int;
    assert((h - 0) * st == st * h) by (nonlinear_arith);
    assert(rows_down(buf, h, 0).len() == data);
    assert(f.len() == size);
    assert(f.subrange(2, 6) == le_bytes(4, size));
}

/// The header of an encoded file states the canvas width and height.
pub proof fn lemma_header_dimensions(buf: Canvas)
    requires
        buf.width >= 1,
        dims_encodable(buf.width, buf.height),
    ensures
        le_value(bmp_file(buf).subrange(18, 22)) == buf.width,
        le_value(bmp_file(buf).subrange(22, 26)) == buf.height,
{
    let st = row_stride(buf.width);
    lemma_stride(buf.width);
    assert(buf.height <= st * buf.height) by (nonlinear_arith)
        requires
            st >= 3,
    ;
    assert(pow256(0) == 1);
    assert(pow256(1) == 256);
    assert(pow256(2) == 65536);
    assert(pow256(3) == 16777216);
    assert(pow256(4) == 0x1_0000_0000);
    let data = (st * buf.height) as nat;
    lemma_le_len(4, (HEADER_SIZE + data) as nat);
    lemma_le_round_trip(4, buf.width);
    lemma_le_round_trip(4, buf.height);
    lemma_le_len(4, data);
    let f = bmp_file(buf);
    assert(f.subrange(18, 22) == le_bytes(4, buf.width));
    assert(f.subrange(22, 26) == le_bytes(4, buf.height));
}

/// Encoding is a function of the canvas alone: two encodings of one canvas
/// are the same bytes.
pub proof fn lemma_encode_repeatable(buf: Canvas, first: Seq<u8>, second: Seq<u8>)
    requires
        first == bmp_file(buf),
        second == bmp_file(buf),
    ensures
        first == second,
{
}

} // verus!
