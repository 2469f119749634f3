use vstd::arithmetic::div_mod::{lemma_div_is_ordered_by_denominator, lemma_fundamental_div_mod};
use vstd::prelude::*;

verus! {

/// Number of glyphs in a font: one for each printable ASCII byte, 32 through 126.
pub const GLYPH_COUNT: usize = 95;

/// A bitmap font: a row height in pixels and one flat alpha table per printable
/// ASCII character. Each table holds `height` rows of `width` alpha values.
pub struct Font {
    height: usize,
    glyphs: Vec<Vec<u8>>,
}

/// Why a font table was rejected.
#[derive(Debug, Clone, Copy, PartialEq, Eq, Structural)]
pub enum FontError {
    /// The row height is zero.
    ZeroHeight,
    /// The table does not hold exactly one glyph per printable character.
    WrongGlyphCount,
    /// The glyph at this index is empty or its length is not a multiple of the height.
    BadGlyphLength(usize),
}

/// The glyph index that a byte is drawn with: printable bytes map to their
/// offset from the space character, every other byte to the fallback glyph 0.
pub open spec fn glyph_index(b: u8) -> nat {
    if 32 <= b && b < 127 { (b - 32) as nat } else { 0 }
}

/// A glyph table is acceptable when it is non-empty and holds whole rows.
pub open spec fn glyph_ok(g: Seq<u8>, height: nat) -> bool {
    g.len() > 0 && g.len() % height == 0
}

impl Font {
    /// The glyph row height in pixels.
    pub closed spec fn spec_height(&self) -> nat {
        self.height as nat
    }

    /// The alpha tables, by glyph index.
    pub closed spec fn spec_glyphs(&self) -> Seq<Seq<u8>> {
        self.glyphs@.map_values(|g: Vec<u8>| g@)
    }

    /// A positive height, one table per printable character, each made of whole rows.
    pub open spec fn wf(&self) -> bool {
        &&& self.spec_height() > 0
        &&& self.spec_glyphs().len() == GLYPH_COUNT
        &&& forall|k: int| 0 <= k < GLYPH_COUNT ==> glyph_ok(#[trigger] self.spec_glyphs()[k], self.spec_height())
    }

    /// The alpha table of the glyph that draws byte `b`.
    pub open spec fn glyph_of(&self, b: u8) -> Seq<u8> {
        self.spec_glyphs()[glyph_index(b) as int]
    }

    /// The width in pixels of the glyph that draws byte `b`.
    pub open spec fn advance(&self, b: u8) -> nat {
        self.glyph_of(b).len() / self.spec_height()
    }

    /// Builds a font, checking that every glyph consists of whole rows.
    pub fn new(height: usize, glyphs: Vec<Vec<u8>>) -> (r: Result<Font, FontError>)
        ensures
            height == 0 ==> r == Err::<Font, FontError>(FontError::ZeroHeight),
            height > 0 && glyphs@.len() != GLYPH_COUNT ==> r == Err::<Font, FontError>(FontError::WrongGlyphCount),
            height > 0 && glyphs@.len() == GLYPH_COUNT ==> match r {
                Ok(f) => f.wf() && f.spec_height() == height
                    && f.spec_glyphs() == glyphs@.map_values(|g: Vec<u8>| g@),
                Err(e) => exists|k: usize| #![auto] e == FontError::BadGlyphLength(k) && k < GLYPH_COUNT
                    && !glyph_ok(glyphs@[k as int]@, height as nat)
                    && forall|m: int| 0 <= m < k ==> glyph_ok(#[trigger] glyphs@[m]@, height as nat),
            },
    {
        if height == 0 {
            return Err(FontError::ZeroHeight);
        }
        if glyphs.len() != GLYPH_COUNT {
            return Err(FontError::WrongGlyphCount);
        }
        let mut k: usize = 0;
        while k < glyphs.len()
            invariant
                height > 0,
                glyphs@.len() == GLYPH_COUNT,
                k <= glyphs@.len(),
                forall|m: int| 0 <= m < k ==> glyph_ok(#[trigger] glyphs@[m]@, height as nat),
            decreases glyphs@.len() - k,
        {
            let n = glyphs[k].len();
            if n == 0 || n % height != 0 {
                return Err(FontError::BadGlyphLength(k));
            }
            k = k + 1;
        }
        Ok(Font { height, glyphs })
    }

    /// The glyph row height in pixels.
    pub fn height(&self) -> (r: usize)
        ensures
            r == self.spec_height(),
    {
        self.height
    }

    /// The alpha table of the glyph that draws byte `b`.
    pub fn glyph(&self, b: u8) -> (r: &Vec<u8>)
        requires
            self.wf(),
        ensures
            r@ == self.glyph_of(b),
    {
        let idx: usize = if 32 <= b && b < 127 { (b - 32) as usize } else { 0 };
        &self.glyphs[idx]
    }

    /// The width in pixels of the glyph that draws byte `b`.
    pub fn glyph_width(&self, b: u8) -> (r: usize)
        requires
            self.wf(),
        ensures
            r == self.advance(b),
            r > 0,
            r <= self.glyph_of(b).len(),
    {
        let g = self.glyph(b);
        proof {
            assert(glyph_ok(self.spec_glyphs()[glyph_index(b) as int], self.spec_height()));
            let n = g@.len() as int;
            let h = self.height as int;
            lemma_fundamental_div_mod(n, h);
            assert(n / h > 0) by (nonlinear_arith)
                requires
                    n == h * (n / h),
                    n > 0,
                    h > 0,
            ;
            lemma_div_is_ordered_by_denominator(n, 1, h);
        }
        g.len() / self.height
    }
}

} // verus!
