use crate::font::Font;
use vstd::prelude::*;
use vstd::string::StringSliceAdditionalSpecFns;

verus! {

/// The byte that separates words.
pub const SPACE: u8 = 32;

/// The byte that ends a line.
pub const NEWLINE: u8 = 10;

/// Width in pixels of a byte string: the sum of the widths of the glyphs that draw it.
pub open spec fn measure(font: &Font, s: Seq<u8>) -> nat
    decreases s.len(),
{
    if s.len() == 0 {
        0
    } else {
        measure(font, s.drop_last()) + font.advance(s.last())
    }
}

/// The text with every newline followed by an added space.
pub open spec fn spread_newlines(s: Seq<u8>) -> Seq<u8>
    decreases s.len(),
{
    if s.len() == 0 {
        s
    } else if s.last() == NEWLINE {
        spread_newlines(s.drop_last()) + seq![NEWLINE, SPACE]
    } else {
        spread_newlines(s.drop_last()).push(s.last())
    }
}

/// Splitting on spaces: the finished words so far and the word being read.
pub open spec fn scan_words(s: Seq<u8>) -> (Seq<Seq<u8>>, Seq<u8>)
    decreases s.len(),
{
    if s.len() == 0 {
        (Seq::empty(), Seq::empty())
    } else {
        let (done, cur) = scan_words(s.drop_last());
        if s.last() == SPACE {
            if cur.len() > 0 { (done.push(cur), Seq::empty()) } else { (done, Seq::empty()) }
        } else {
            (done, cur.push(s.last()))
        }
    }
}

/// The non-empty pieces of `s` between single spaces, in order.
pub open spec fn words(s: Seq<u8>) -> Seq<Seq<u8>> {
    let (done, cur) = scan_words(s);
    if cur.len() > 0 { done.push(cur) } else { done }
}

/// Words joined with single spaces.
pub open spec fn join(ws: Seq<Seq<u8>>) -> Seq<u8>
    decreases ws.len(),
{
    if ws.len() == 0 {
        Seq::empty()
    } else if ws.len() == 1 {
        ws[0]
    } else {
        join(ws.drop_last()).push(SPACE) + ws.last()
    }
}

/// The bytes of `s` without its newlines.
pub open spec fn strip_newlines(s: Seq<u8>) -> Seq<u8>
    decreases s.len(),
{
    if s.len() == 0 {
        s
    } else if s.last() == NEWLINE {
        strip_newlines(s.drop_last())
    } else {
        strip_newlines(s.drop_last()).push(s.last())
    }
}

/// State of the greedy line breaker: finished lines, and index of the first
/// word of the running line.
pub struct WrapState {
    pub lines: Seq<Seq<u8>>,
    pub base: nat,
}

/// The breaker's state after it has looked at the first `i` words.
pub open spec fn wrap_steps(font: &Font, ws: Seq<Seq<u8>>, max_width: nat, i: nat) -> WrapState
    decreases i,
{
    if i == 0 {
        WrapState { lines: Seq::empty(), base: 0 }
    } else {
        let st = wrap_steps(font, ws, max_width, (i - 1) as nat);
        let k = (i - 1) as int;
        let cur = measure(font, join(ws.subrange(st.base as int, k + 1)));
        if cur > max_width || (k >= 1 && ws[k - 1].contains(NEWLINE)) {
            WrapState {
                lines: st.lines.push(strip_newlines(join(ws.subrange(st.base as int, k)))),
                base: k as nat,
            }
        } else {
            st
        }
    }
}

/// The width of the widest of `lines`, 0 when there are none.
pub open spec fn widest_line(font: &Font, lines: Seq<Seq<u8>>) -> nat
    decreases lines.len(),
{
    if lines.len() == 0 {
        0
    } else {
        let rest = widest_line(font, lines.drop_last());
        let w = measure(font, lines.last());
        if w > rest { w } else { rest }
    }
}

proof fn lemma_widest_single(font: &Font, t: Seq<u8>)
    ensures
        widest_line(font, seq![t]) == measure(font, t),
{
    assert(seq![t].drop_last() == Seq::<Seq<u8>>::empty());
    assert(widest_line(font, Seq::<Seq<u8>>::empty()) == 0);
}

/// The lines of the greedy layout of `text`.
pub open spec fn wrap_lines(font: &Font, text: Seq<u8>, max_width: nat) -> Seq<Seq<u8>> {
    if measure(font, text) <= max_width {
        seq![text]
    } else {
        let ws = words(spread_newlines(text));
        let st = wrap_steps(font, ws, max_width, ws.len());
        st.lines.push(join(ws.subrange(st.base as int, ws.len() as int)))
    }
}

/// Lines of the greedy layout of `text`, and the width of the widest of them.
pub open spec fn wrap_spec(font: &Font, text: Seq<u8>, max_width: nat) -> (Seq<Seq<u8>>, nat) {
    let lines = wrap_lines(font, text, max_width);
    (lines, widest_line(font, lines))
}

/// The contents of each byte vector.
pub open spec fn views(v: Seq<Vec<u8>>) -> Seq<Seq<u8>> {
    v.map_values(|x: Vec<u8>| x@)
}

/// Text split into lines, with the width of the widest line.
pub struct Spliterated {
    pub split: Vec<Vec<u8>>,
    pub width: u128,
}

/// Width in pixels of a byte string.
pub fn measure_bytes(text: &[u8], font: &Font) -> (r: u128)
    requires
        font.wf(),
    ensures
        r == measure(font, text@),
{
    let mut sum: u128 = 0;
    let mut i: usize = 0;
    while i < text.len()
        invariant
            font.wf(),
            i <= text@.len(),
            sum == measure(font, text@.subrange(0, i as int)),
            sum <= i * 0xFFFF_FFFF_FFFF_FFFFu128,
        decreases text@.len() - i,
    {
        let w = font.glyph_width(text[i]);
        assert(text@.subrange(0, i + 1).drop_last() == text@.subrange(0, i as int));
        sum = sum + w as u128;
        i = i + 1;
    }
    assert(text@.subrange(0, i as int) == text@);
    sum
}

/// Width in pixels of `text` drawn in `font`.
pub fn calculate_text_length(text: &str, font: &Font) -> (r: u128)
    requires
        font.wf(),
    ensures
        r == measure(font, text.spec_bytes()),
{
    measure_bytes(text.as_bytes(), font)
}

fn spread_newlines_exec(text: &[u8]) -> (r: Vec<u8>)
    ensures
        r@ == spread_newlines(text@),
{
    let mut r: Vec<u8> = Vec::new();
    let mut i: usize = 0;
    while i < text.len()
        invariant
            i <= text@.len(),
            r@ == spread_newlines(text@.subrange(0, i as int)),
        decreases text@.len() - i,
    {
        assert(text@.subrange(0, i + 1).drop_last() == text@.subrange(0, i as int));
        r.push(text[i]);
        if text[i] == NEWLINE {
            r.push(SPACE);
        }
        i = i + 1;
    }
    assert(text@.subrange(0, i as int) == text@);
    r
}

fn split_words(text: &[u8]) -> (r: Vec<Vec<u8>>)
    ensures
        views(r@) == words(text@),
{
    let mut done: Vec<Vec<u8>> = Vec::new();
    let mut cur: Vec<u8> = Vec::new();
    let mut i: usize = 0;
    while i < text.len()
        invariant
            i <= text@.len(),
            (views(done@), cur@) == scan_words(text@.subrange(0, i as int)),
        decreases text@.len() - i,
    {
        assert(text@.subrange(0, i + 1).drop_last() == text@.subrange(0, i as int));
        if text[i] == SPACE {
            if cur.len() > 0 {
                let w = cur;
                done.push(w);
                cur = Vec::new();
                assert(views(done@) == views(done@.drop_last()).push(w@));
            } else {
                cur = Vec::new();
            }
        } else {
            cur.push(text[i]);
        }
        i = i + 1;
    }
    assert(text@.subrange(0, i as int) == text@);
    if cur.len() > 0 {
        let w = cur;
        done.push(w);
        assert(views(done@) == views(done@.drop_last()).push(w@));
    }
    done
}

fn strip_newlines_exec(s: &Vec<u8>) -> (r: Vec<u8>)
    ensures
        r@ == strip_newlines(s@),
{
    let mut r: Vec<u8> = Vec::new();
    let mut i: usize = 0;
    while i < s.len()
        invariant
            i <= s@.len(),
            r@ == strip_newlines(s@.subrange(0, i as int)),
        decreases s@.len() - i,
    {
        assert(s@.subrange(0, i + 1).drop_last() == s@.subrange(0, i as int));
        if s[i] != NEWLINE {
            r.push(s[i]);
        }
        i = i + 1;
    }
    assert(s@.subrange(0, i as int) == s@);
    r
}

fn has_newline(s: &Vec<u8>) -> (r: bool)
    ensures
        r == s@.contains(NEWLINE),
{
    let mut i: usize = 0;
    while i < s.len()
        invariant
            i <= s@.len(),
            forall|m: int| 0 <= m < i ==> s@[m] != NEWLINE,
        decreases s@.len() - i,
    {
        if s[i] == NEWLINE {
            return true;
        }
        i = i + 1;
    }
    false
}

/// The words `lo..hi` of `ws` joined with single spaces.
fn join_exec(ws: &Vec<Vec<u8>>, lo: usize, hi: usize) -> (r: Vec<u8>)
    requires
        lo <= hi <= ws@.len(),
    ensures
        r@ == join(views(ws@).subrange(lo as int, hi as int)),
{
    let mut r: Vec<u8> = Vec::new();
    let mut k: usize = lo;
    while k < hi
        invariant
            lo <= k <= hi <= ws@.len(),
            r@ == join(views(ws@).subrange(lo as int, k as int)),
        decreases hi - k,
    {
        let ghost sub = views(ws@).subrange(lo as int, k + 1);
        assert(sub.drop_last() == views(ws@).subrange(lo as int, k as int));
        if k > lo {
            r.push(SPACE);
        }
        let mut m: usize = 0;
        let ghost start = r@;
        while m < ws[k].len()
            invariant
                lo <= k < hi <= ws@.len(),
                m <= ws@[k as int]@.len(),
                r@ == start + ws@[k as int]@.subrange(0, m as int),
            decreases ws@[k as int]@.len() - m,
        {
            r.push(ws[k][m]);
            m = m + 1;
            assert(r@ == start + ws@[k as int]@.subrange(0, m as int));
        }
        assert(ws@[k as int]@.subrange(0, m as int) == ws@[k as int]@);
        k = k + 1;
    }
    r
}

/// Splits byte text into lines no wider than `max_width`, breaking greedily
/// between words; a text that already fits is kept whole, newlines included.
pub fn break_apart_bytes(text: &[u8], max_width: u128, font: &Font) -> (r: Spliterated)
    requires
        font.wf(),
    ensures
        (views(r.split@), r.width as nat) == wrap_spec(font, text@, max_width as nat),
{
    let width = measure_bytes(text, font);
    if width <= max_width {
        let whole = vstd::slice::slice_to_vec(text);
        let split = vec![whole];
        assert(views(split@) == seq![text@]);
        proof {
            lemma_widest_single(font, text@);
        }
        return Spliterated { split, width };
    }
    let spread = spread_newlines_exec(text);
    let ws = split_words(spread.as_slice());
    let ghost wv = views(ws@);
    let mut lines: Vec<Vec<u8>> = Vec::new();
    let mut base: usize = 0;
    let mut widest: u128 = 0;
    let mut i: usize = 0;
    assert(views(lines@) == Seq::<Seq<u8>>::empty());
    while i < ws.len()
        invariant
            font.wf(),
            wv == views(ws@),
            wv == words(spread_newlines(text@)),
            i <= ws@.len(),
            base <= i,
            wrap_steps(font, wv, max_width as nat, i as nat) == (WrapState {
                lines: views(lines@),
                base: base as nat,
            }),
            widest == widest_line(font, views(lines@)),
        decreases ws@.len() - i,
    {
        let ghost old_lines = lines@;
        proof {
            if i >= 1 {
                assert(wv[i - 1] == ws@[i - 1]@);
            }
        }
        let joined = join_exec(&ws, base, i + 1);
        let cur = measure_bytes(joined.as_slice(), font);
        let after_newline = i >= 1 && has_newline(&ws[i - 1]);
        if cur > max_width || after_newline {
            let seg = join_exec(&ws, base, i);
            let line = strip_newlines_exec(&seg);
            let w = measure_bytes(line.as_slice(), font);
            lines.push(line);
            assert(views(lines@) =~= views(old_lines).push(line@));
            assert(views(lines@).drop_last() == views(old_lines));
            if w > widest {
                widest = w;
            }
            base = i;
        }
        assert(wrap_steps(font, wv, max_width as nat, (i + 1) as nat) == (WrapState {
            lines: views(lines@),
            base: base as nat,
        }));
        i = i + 1;
    }
    let last = join_exec(&ws, base, ws.len());
    let w = measure_bytes(last.as_slice(), font);
    let ghost old_lines = lines@;
    lines.push(last);
    assert(views(lines@) =~= views(old_lines).push(last@));
    assert(views(lines@).drop_last() == views(old_lines));
    if w > widest {
        widest = w;
    }
    Spliterated { split: lines, width: widest }
}

/// Splits text into lines no wider than `max_width`; see [`break_apart_bytes`].
pub fn break_apart(text: &str, max_width: u128, font: &Font) -> (r: Spliterated)
    requires
        font.wf(),
    ensures
        (views(r.split@), r.width as nat) == wrap_spec(font, text.spec_bytes(), max_width as nat),
{
    break_apart_bytes(text.as_bytes(), max_width, font)
}

/// Text no wider than the limit comes back as one line, the text itself,
/// newlines kept, with its own width.
pub proof fn lemma_fitting_text_is_one_line(font: &Font, text: Seq<u8>, max_width: nat)
    requires
        measure(font, text) <= max_width,
    ensures
        wrap_spec(font, text, max_width).0 == seq![text],
        wrap_spec(font, text, max_width).1 == measure(font, text),
{
    lemma_widest_single(font, text);
}

proof fn lemma_measure_concat(font: &Font, a: Seq<u8>, b: Seq<u8>)
    ensures
        measure(font, a + b) == measure(font, a) + measure(font, b),
    decreases b.len(),
{
    if b.len() > 0 {
        lemma_measure_concat(font, a, b.drop_last());
        assert((a + b).drop_last() == a + b.drop_last());
    }
}

proof fn lemma_strip_plain(s: Seq<u8>)
    requires
        !s.contains(NEWLINE),
    ensures
        strip_newlines(s) == s,
    decreases s.len(),
{
    if s.len() > 0 {
        assert(!s.drop_last().contains(NEWLINE)) by {
            if s.drop_last().contains(NEWLINE) {
                let m = choose|m: int| 0 <= m < s.drop_last().len() && s.drop_last()[m] == NEWLINE;
                assert(s[m] == NEWLINE);
            }
        }
        lemma_strip_plain(s.drop_last());
        assert(s.last() != NEWLINE) by {
            assert(s[s.len() - 1] == s.last());
        }
        assert(s.drop_last().push(s.last()) == s);
    }
}

/// A run of two or more words is at least as wide as its last word.
proof fn lemma_join_covers_last(font: &Font, ws: Seq<Seq<u8>>)
    requires
        ws.len() >= 1,
    ensures
        measure(font, join(ws)) >= measure(font, ws.last()),
{
    if ws.len() >= 2 {
        lemma_measure_concat(font, join(ws.drop_last()).push(SPACE), ws.last());
    }
}

/// The breaker's running line never starts after the word it looks at next,
/// and finished lines are never changed.
proof fn lemma_steps_grow(font: &Font, ws: Seq<Seq<u8>>, max_width: nat, i: nat, j: nat)
    requires
        i <= j,
    ensures
        i >= 1 ==> wrap_steps(font, ws, max_width, i).base < i,
        wrap_steps(font, ws, max_width, i).lines.len() <= wrap_steps(font, ws, max_width, j).lines.len(),
        wrap_steps(font, ws, max_width, j).lines.subrange(0, wrap_steps(font, ws, max_width, i).lines.len() as int)
            == wrap_steps(font, ws, max_width, i).lines,
    decreases j,
{
    if i > 0 {
        lemma_steps_grow(font, ws, max_width, (i - 1) as nat, (i - 1) as nat);
    }
    if j > i {
        lemma_steps_grow(font, ws, max_width, i, (j - 1) as nat);
        let a = wrap_steps(font, ws, max_width, i).lines;
        let b = wrap_steps(font, ws, max_width, (j - 1) as nat).lines;
        let c = wrap_steps(font, ws, max_width, j).lines;
        assert(c.subrange(0, b.len() as int) == b);
        assert(c.subrange(0, a.len() as int) == b.subrange(0, a.len() as int));
    } else {
        assert(wrap_steps(font, ws, max_width, j).lines.subrange(0, wrap_steps(font, ws, max_width, j).lines.len() as int)
            == wrap_steps(font, ws, max_width, j).lines);
    }
}

proof fn lemma_scan_within(font: &Font, p: Seq<u8>)
    ensures
        forall|k: int| 0 <= k < scan_words(spread_newlines(p)).0.len()
            ==> measure(font, #[trigger] scan_words(spread_newlines(p)).0[k]) <= measure(font, p),
        measure(font, scan_words(spread_newlines(p)).1) <= measure(font, p),
    decreases p.len(),
{
    if p.len() > 0 {
        let q = p.drop_last();
        let b = p.last();
        lemma_scan_within(font, q);
        let sq = spread_newlines(q);
        let sp = spread_newlines(p);
        let (dq, cq) = scan_words(sq);
        let dp = scan_words(sp).0;
        if b == NEWLINE {
            assert(sp.drop_last() == sq.push(NEWLINE));
            assert(sq.push(NEWLINE).drop_last() == sq);
            assert(sp.last() == SPACE);
            let cur = cq.push(NEWLINE);
            assert(cur.drop_last() == cq);
            assert(scan_words(sq.push(NEWLINE)) == (dq, cur));
            assert(dp == dq.push(cur));
            assert forall|k: int| 0 <= k < dp.len() implies measure(font, #[trigger] dp[k]) <= measure(font, p) by {
                if k < dq.len() {
                    assert(dp[k] == dq[k]);
                }
            }
        } else {
            assert(sp.drop_last() == sq);
            if b != SPACE {
                assert(scan_words(sp).1.drop_last() == cq);
                assert(dp == dq);
            } else {
                assert forall|k: int| 0 <= k < dp.len() implies measure(font, #[trigger] dp[k]) <= measure(font, p) by {
                    if k < dq.len() {
                        assert(dp[k] == dq[k]);
                    }
                }
            }
        }
    }
}

/// Every word of a text is at most as wide as the text.
proof fn lemma_words_within(font: &Font, text: Seq<u8>)
    ensures
        forall|k: int| 0 <= k < words(spread_newlines(text)).len()
            ==> measure(font, #[trigger] words(spread_newlines(text))[k]) <= measure(font, text),
{
    lemma_scan_within(font, text);
}

/// A word without a newline that is wider than the limit is never split:
/// it is one of the lines, by itself.
pub proof fn lemma_wide_word_own_line(font: &Font, text: Seq<u8>, max_width: nat, k: int)
    requires
        0 <= k < words(spread_newlines(text)).len(),
        measure(font, words(spread_newlines(text))[k]) > max_width,
        !words(spread_newlines(text))[k].contains(NEWLINE),
    ensures
        wrap_spec(font, text, max_width).0.contains(words(spread_newlines(text))[k]),
{
    let ws = words(spread_newlines(text));
    let n = ws.len();
    let word = ws[k];
    lemma_words_within(font, text);
    lemma_steps_grow(font, ws, max_width, k as nat, k as nat);
    let before = wrap_steps(font, ws, max_width, k as nat);
    let run = ws.subrange(before.base as int, k + 1);
    assert(run.last() == word);
    lemma_join_covers_last(font, run);
    let at = wrap_steps(font, ws, max_width, (k + 1) as nat);
    assert(at.base == k);
    let single = ws.subrange(k, k + 1);
    assert(join(single) == word);
    if k + 1 < n {
        let pair = ws.subrange(k, k + 2);
        assert(pair.last() == ws[k + 1]);
        assert(pair.drop_last() == single);
        lemma_measure_concat(font, join(single).push(SPACE), ws[k + 1]);
        lemma_measure_concat(font, join(single), seq![SPACE]);
        assert(join(single).push(SPACE) == join(single) + seq![SPACE]);
        let next = wrap_steps(font, ws, max_width, (k + 2) as nat);
        lemma_strip_plain(word);
        assert(next.lines.last() == word);
        lemma_steps_grow(font, ws, max_width, (k + 2) as nat, n);
        let fin = wrap_steps(font, ws, max_width, n);
        let m = next.lines.len() - 1;
        assert(fin.lines[m] == next.lines[m]);
        let out = wrap_spec(font, text, max_width).0;
        assert(out[m] == word);
    } else {
        let fin = wrap_steps(font, ws, max_width, n);
        assert(fin.base == k);
        assert(ws.subrange(k, n as int) == single);
        let out = wrap_spec(font, text, max_width).0;
        assert(out[out.len() - 1] == word);
    }
}

proof fn lemma_widest_bounds(font: &Font, lines: Seq<Seq<u8>>, m: nat)
    ensures
        forall|k: int| 0 <= k < lines.len() ==> measure(font, #[trigger] lines[k]) <= widest_line(font, lines),
        (forall|k: int| 0 <= k < lines.len() ==> measure(font, #[trigger] lines[k]) <= m) ==> widest_line(font, lines) <= m,
        lines.len() > 0 ==> exists|k: int| 0 <= k < lines.len() && measure(font, #[trigger] lines[k]) == widest_line(font, lines),
    decreases lines.len(),
{
    if lines.len() > 0 {
        let rest = lines.drop_last();
        lemma_widest_bounds(font, rest, m);
        assert forall|k: int| 0 <= k < lines.len() implies measure(font, #[trigger] lines[k]) <= widest_line(font, lines) by {
            if k < rest.len() {
                assert(lines[k] == rest[k]);
            }
        }
        if forall|k: int| 0 <= k < lines.len() ==> measure(font, #[trigger] lines[k]) <= m {
            assert forall|k: int| 0 <= k < rest.len() implies measure(font, #[trigger] rest[k]) <= m by {
                assert(lines[k] == rest[k]);
            }
            assert(measure(font, lines[lines.len() - 1]) <= m);
        }
        if measure(font, lines.last()) > widest_line(font, rest) {
            assert(measure(font, lines[lines.len() - 1]) == widest_line(font, lines));
        } else if rest.len() > 0 {
            let k = choose|k: int| 0 <= k < rest.len() && measure(font, #[trigger] rest[k]) == widest_line(font, rest);
            assert(lines[k] == rest[k]);
        } else {
            assert(measure(font, lines[0]) == widest_line(font, lines));
        }
    }
}

proof fn lemma_strip_narrower(font: &Font, s: Seq<u8>)
    ensures
        measure(font, strip_newlines(s)) <= measure(font, s),
    decreases s.len(),
{
    if s.len() > 0 {
        let q = strip_newlines(s.drop_last());
        lemma_strip_narrower(font, s.drop_last());
        assert(q.push(s.last()).drop_last() == q);
    }
}

proof fn lemma_steps_fit(font: &Font, ws: Seq<Seq<u8>>, max_width: nat, i: nat)
    requires
        i <= ws.len(),
        forall|k: int| 0 <= k < ws.len() ==> measure(font, #[trigger] ws[k]) <= max_width,
    ensures
        forall|k: int| 0 <= k < wrap_steps(font, ws, max_width, i).lines.len()
            ==> measure(font, #[trigger] wrap_steps(font, ws, max_width, i).lines[k]) <= max_width,
        i >= 1 ==> measure(font, join(ws.subrange(wrap_steps(font, ws, max_width, i).base as int, i as int))) <= max_width,
    decreases i,
{
    if i > 0 {
        let k = (i - 1) as int;
        lemma_steps_fit(font, ws, max_width, (i - 1) as nat);
        lemma_steps_grow(font, ws, max_width, (i - 1) as nat, (i - 1) as nat);
        let st = wrap_steps(font, ws, max_width, (i - 1) as nat);
        let nx = wrap_steps(font, ws, max_width, i);
        if nx.base != st.base || nx.lines.len() != st.lines.len() {
            let seg = join(ws.subrange(st.base as int, k));
            lemma_strip_narrower(font, seg);
            if k == 0 {
                assert(ws.subrange(st.base as int, k) == Seq::<Seq<u8>>::empty());
            }
            assert forall|m: int| 0 <= m < nx.lines.len() implies measure(font, #[trigger] nx.lines[m]) <= max_width by {
                if m < st.lines.len() {
                    assert(nx.lines[m] == st.lines[m]);
                }
            }
            assert(join(ws.subrange(k, k + 1)) == ws[k]);
        }
    }
}

/// The reported width is that of the widest line: no line is wider, and
/// when every word fits the limit, neither does any line nor the width.
pub proof fn lemma_width_is_widest_line(font: &Font, text: Seq<u8>, max_width: nat)
    ensures
        forall|k: int| 0 <= k < wrap_spec(font, text, max_width).0.len()
            ==> measure(font, #[trigger] wrap_spec(font, text, max_width).0[k]) <= wrap_spec(font, text, max_width).1,
        exists|k: int| 0 <= k < wrap_spec(font, text, max_width).0.len()
            && measure(font, #[trigger] wrap_spec(font, text, max_width).0[k]) == wrap_spec(font, text, max_width).1,
        (forall|k: int| 0 <= k < words(spread_newlines(text)).len()
            ==> measure(font, #[trigger] words(spread_newlines(text))[k]) <= max_width)
            ==> wrap_spec(font, text, max_width).1 <= max_width,
{
    let lines = wrap_spec(font, text, max_width).0;
    let ws = words(spread_newlines(text));
    lemma_widest_bounds(font, lines, max_width);
    if measure(font, text) > max_width && forall|k: int| 0 <= k < ws.len() ==> measure(font, #[trigger] ws[k]) <= max_width {
        let n = ws.len();
        lemma_steps_fit(font, ws, max_width, n);
        let st = wrap_steps(font, ws, max_width, n);
        if n == 0 {
            assert(ws.subrange(st.base as int, 0) == Seq::<Seq<u8>>::empty());
        }
        assert forall|m: int| 0 <= m < lines.len() implies measure(font, #[trigger] lines[m]) <= max_width by {
            if m < st.lines.len() {
                assert(lines[m] == st.lines[m]);
            }
        }
    }
}

} // verus!
