use vstd::arithmetic::div_mod::{lemma_fundamental_div_mod, lemma_fundamental_div_mod_converse};
use vstd::prelude::*;

verus! {

/// Byte index of channel `k` of the pixel at (`r`, `c`) in a row-major buffer
/// of rows `w` pixels wide with `ch` bytes per pixel.
pub open spec fn px(w: int, ch: int, r: int, c: int, k: int) -> int {
    ch * (r * w + c) + k
}

/// `new` holds, at each pixel (r, c), the pixel that `old` holds at `src(r, c)`.
pub open spec fn moved(
    new: Seq<u8>,
    old: Seq<u8>,
    w: int,
    h: int,
    ch: int,
    src: spec_fn(int, int) -> (int, int),
) -> bool {
    &&& new.len() == old.len()
    &&& forall|r: int, c: int, k: int|
        0 <= r < h && 0 <= c < w && 0 <= k < ch ==> #[trigger] new[px(w, ch, r, c, k)] == old[px(
            w,
            ch,
            src(r, c).0,
            src(r, c).1,
            k,
        )]
}

/// The buffer whose pixel at (r, c) is the pixel of `d` at `src(r, c)`.
pub open spec fn remap(d: Seq<u8>, w: int, ch: int, src: spec_fn(int, int) -> (int, int)) -> Seq<
    u8,
> {
    Seq::new(
        d.len(),
        |i: int|
            {
                let p = i / ch;
                let rc = src(p / w, p % w);
                d[px(w, ch, rc.0, rc.1, i % ch)]
            },
    )
}

/// The buffer `d` with the `n` bytes at `a` and the `n` bytes at `b` exchanged.
pub open spec fn swap_spans(d: Seq<u8>, a: int, b: int, n: int) -> Seq<u8> {
    Seq::new(
        d.len(),
        |i: int|
            if a <= i < a + n {
                d[b + (i - a)]
            } else if b <= i < b + n {
                d[a + (i - b)]
            } else {
                d[i]
            },
    )
}

/// Every byte of a pixel inside the image lies inside the buffer.
pub proof fn lemma_px_in_buffer(w: int, h: int, ch: int, r: int, c: int, k: int)
    requires
        0 <= r < h,
        0 <= c < w,
        0 <= k < ch,
    ensures
        0 <= px(w, ch, r, c, 0) <= px(w, ch, r, c, k),
        px(w, ch, r, c, 0) + ch <= w * h * ch,
        px(w, ch, r, c, k) == px(w, ch, r, c, 0) + k,
{
    let p = r * w + c;
    assert(0 <= p && p + 1 <= h * w) by (nonlinear_arith)
        requires
            0 <= r < h,
            0 <= c < w,
            p == r * w + c,
    ;
    assert(0 <= ch * p && ch * p + ch <= w * h * ch) by (nonlinear_arith)
        requires
            0 <= p,
            p + 1 <= h * w,
            0 < ch,
    ;
}

/// Each byte index of the buffer is a unique (row, column, channel) triple.
pub proof fn lemma_px_split(w: int, h: int, ch: int, i: int)
    requires
        0 <= w,
        0 <= h,
        0 <= ch,
        0 <= i < w * h * ch,
    ensures
        0 < w,
        0 < ch,
        0 <= (i / ch) / w < h,
        0 <= (i / ch) % w < w,
        0 <= i % ch < ch,
        i == px(w, ch, (i / ch) / w, (i / ch) % w, i % ch),
{
    assert(0 < w && 0 < h && 0 < ch) by (nonlinear_arith)
        requires
            0 <= w,
            0 <= h,
            0 <= ch,
            0 <= i < w * h * ch,
    ;
    let p = i / ch;
    lemma_fundamental_div_mod(i, ch);
    lemma_fundamental_div_mod(p, w);
    let r = p / w;
    let c = p % w;
    assert(0 <= p < w * h) by (nonlinear_arith)
        requires
            0 < ch,
            0 <= i < w * h * ch,
            i == ch * p + i % ch,
            0 <= i % ch < ch,
    ;
    assert(0 <= r < h) by (nonlinear_arith)
        requires
            0 < w,
            0 <= p < w * h,
            p == w * r + c,
            0 <= c < w,
    ;
}

/// Two triples inside the image name the same byte only when they are equal.
pub proof fn lemma_px_unique(w: int, ch: int, r1: int, c1: int, k1: int, r2: int, c2: int, k2: int)
    requires
        0 <= c1 < w,
        0 <= c2 < w,
        0 <= k1 < ch,
        0 <= k2 < ch,
        px(w, ch, r1, c1, k1) == px(w, ch, r2, c2, k2),
    ensures
        r1 == r2,
        c1 == c2,
        k1 == k2,
{
    let x = px(w, ch, r1, c1, k1);
    let p1 = r1 * w + c1;
    let p2 = r2 * w + c2;
    lemma_fundamental_div_mod_converse(x, ch, p1, k1);
    lemma_fundamental_div_mod_converse(x, ch, p2, k2);
    lemma_fundamental_div_mod_converse(p1, w, r1, c1);
    lemma_fundamental_div_mod_converse(p1, w, r2, c2);
}

/// A byte of pixel (r, c) lies outside the bytes of any other pixel (r2, c2).
pub proof fn lemma_px_apart(w: int, ch: int, r: int, c: int, k: int, r2: int, c2: int)
    requires
        0 <= c < w,
        0 <= c2 < w,
        0 <= k < ch,
        r != r2 || c != c2,
    ensures
        px(w, ch, r, c, k) < px(w, ch, r2, c2, 0) || px(w, ch, r2, c2, 0) + ch <= px(
            w,
            ch,
            r,
            c,
            k,
        ),
{
    let p = r * w + c;
    let p2 = r2 * w + c2;
    if p == p2 {
        lemma_fundamental_div_mod_converse(p, w, r, c);
        lemma_fundamental_div_mod_converse(p, w, r2, c2);
    }
    assert(ch * p + k < ch * p2 || ch * p2 + ch <= ch * p + k) by (nonlinear_arith)
        requires
            p != p2,
            0 <= k < ch,
    ;
}

/// The bytes of pixel (r, c) lie in row `r`, at the offset they have in row 0.
pub proof fn lemma_px_row(w: int, ch: int, r: int, c: int, k: int)
    requires
        0 <= c < w,
        0 <= k < ch,
    ensures
        px(w, ch, r, c, k) == r * (w * ch) + px(w, ch, 0, c, k),
        0 <= px(w, ch, 0, c, k) < w * ch,
{
    assert(ch * (r * w + c) + k == r * (w * ch) + (ch * (0 * w + c) + k)) by (nonlinear_arith);
    assert(0 <= ch * (0 * w + c) + k < w * ch) by (nonlinear_arith)
        requires
            0 <= c < w,
            0 <= k < ch,
    ;
}

/// A byte of row `r` lies outside every other row `r1`.
pub proof fn lemma_row_apart(span: int, r: int, o: int, r1: int)
    requires
        0 <= o < span,
        r != r1,
    ensures
        r * span + o < r1 * span || r1 * span + span <= r * span + o,
{
    if r < r1 {
        assert(r * span + o < r1 * span) by (nonlinear_arith)
            requires
                0 <= o < span,
                r < r1,
        ;
    } else {
        assert(r1 * span + span <= r * span + o) by (nonlinear_arith)
            requires
                0 <= o < span,
                r1 < r,
        ;
    }
}

/// Two pixel offsets name either the same bytes or disjoint bytes.
pub proof fn lemma_pixel_spans_apart(ch: int, a: int, b: int)
    requires
        0 <= ch,
    ensures
        ch * a == ch * b || ch * a + ch <= ch * b || ch * b + ch <= ch * a,
{
    if a < b {
        assert(ch * a + ch <= ch * b) by (nonlinear_arith)
            requires
                a < b,
                0 <= ch,
        ;
    } else if b < a {
        assert(ch * b + ch <= ch * a) by (nonlinear_arith)
            requires
                b < a,
                0 <= ch,
        ;
    }
}

/// Exchanges the `channel` bytes of pixel (`row1`, `col1`) with those of pixel
/// (`row2`, `col2`) in a buffer of `width * height` pixels. A pixel whose bytes
/// would end past the buffer leaves the call without effect.
pub fn exchange_two_pixels(
    data: &mut Vec<u8>,
    position: (u32, u32, u32, u32),
    width: u32,
    height: u32,
    channel: u32,
)
    requires
        old(data)@.len() == width * height * channel,
    ensures
        ({
            let (row1, col1, row2, col2) = position;
            let a = px(width as int, channel as int, row1 as int, col1 as int, 0);
            let b = px(width as int, channel as int, row2 as int, col2 as int, 0);
            let n = width * height * channel;
            if a + channel <= n && b + channel <= n {
                final(data)@ == swap_spans(old(data)@, a, b, channel as int)
            } else {
                final(data)@ == old(data)@
            }
        }),
{
    let (row1, col1, row2, col2) = position;
    let w = width as u128;
    let ch = channel as u128;
    assert((row1 as u128) * w <= 0xffff_ffff * 0xffff_ffffu128) by (nonlinear_arith)
        requires
            w <= 0xffff_ffff,
    ;
    assert((row2 as u128) * w <= 0xffff_ffff * 0xffff_ffffu128) by (nonlinear_arith)
        requires
            w <= 0xffff_ffff,
    ;
    let p1 = (row1 as u128) * w + (col1 as u128);
    let p2 = (row2 as u128) * w + (col2 as u128);
    assert(ch * p1 <= 0xffff_ffff * 0x1_0000_0000_0000_0000u128) by (nonlinear_arith)
        requires
            ch <= 0xffff_ffff,
            p1 <= 0xffff_ffff * 0xffff_ffff + 0xffff_ffff,
    ;
    assert(ch * p2 <= 0xffff_ffff * 0x1_0000_0000_0000_0000u128) by (nonlinear_arith)
        requires
            ch <= 0xffff_ffff,
            p2 <= 0xffff_ffff * 0xffff_ffff + 0xffff_ffff,
    ;
    let pos1 = ch * p1;
    let pos2 = ch * p2;
    let n = data.len() as u128;
    if pos1 + ch > n || pos2 + ch > n {
        return ;
    }
    proof {
        lemma_pixel_spans_apart(ch as int, p1 as int, p2 as int);
    }
    let a = pos1 as usize;
    let b = pos2 as usize;
    let chu = channel as usize;
    let len = data.len();
    let ghost d0 = data@;
    let mut j: usize = 0;
    while j < chu
        invariant
            0 <= j <= chu,
            chu == channel,
            d0.len() == len,
            a + chu <= d0.len(),
            b + chu <= d0.len(),
            a == b || a + chu <= b || b + chu <= a,
            data@.len() == d0.len(),
            forall|i: int|
                0 <= i < d0.len() ==> #[trigger] data@[i] == (if a <= i < a + j {
                    d0[b + (i - a)]
                } else if b <= i < b + j {
                    d0[a + (i - b)]
                } else {
                    d0[i]
                }),
        decreases chu - j,
    {
        let t = data[a + j];
        let u = data[b + j];
        data.set(a + j, u);
        data.set(b + j, t);
        j = j + 1;
    }
    assert(data@ =~= swap_spans(d0, a as int, b as int, channel as int));
}

} // verus!
