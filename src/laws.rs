use crate::image::{direct_rows, inner_cols, mirror_rows};
use crate::layout::{lemma_px_in_buffer, lemma_px_split, lemma_px_unique, px, remap};
use vstd::prelude::*;

verus! {

/// Reading pixel (r, c) of a remapped buffer reads pixel `f(r, c)` of the original.
pub proof fn lemma_remap_at(
    d: Seq<u8>,
    w: int,
    h: int,
    ch: int,
    f: spec_fn(int, int) -> (int, int),
    r: int,
    c: int,
    k: int,
)
    requires
        d.len() == w * h * ch,
        0 <= r < h,
        0 <= c < w,
        0 <= k < ch,
    ensures
        remap(d, w, ch, f)[px(w, ch, r, c, k)] == d[px(w, ch, f(r, c).0, f(r, c).1, k)],
{
    let i = px(w, ch, r, c, k);
    lemma_px_in_buffer(w, h, ch, r, c, k);
    lemma_px_split(w, h, ch, i);
    let p = i / ch;
    lemma_px_unique(w, ch, r, c, k, p / w, p % w, i % ch);
}

/// Remapping twice by a map that undoes itself on every pixel gives back the buffer.
pub proof fn lemma_remap_involution(d: Seq<u8>, w: int, h: int, ch: int, f: spec_fn(int, int) -> (int, int))
    requires
        0 <= w,
        0 <= h,
        0 <= ch,
        d.len() == w * h * ch,
        forall|r: int, c: int|
            0 <= r < h && 0 <= c < w ==> 0 <= (#[trigger] f(r, c)).0 < h && 0 <= f(r, c).1 < w
                && f(f(r, c).0, f(r, c).1) == (r, c),
    ensures
        remap(remap(d, w, ch, f), w, ch, f) == d,
{
    let e = remap(d, w, ch, f);
    assert forall|i: int| 0 <= i < d.len() implies remap(e, w, ch, f)[i] == d[i] by {
        lemma_px_split(w, h, ch, i);
        let p = i / ch;
        let (r, c, k) = (p / w, p % w, i % ch);
        let q = f(r, c);
        lemma_remap_at(e, w, h, ch, f, r, c, k);
        lemma_remap_at(d, w, h, ch, f, q.0, q.1, k);
    }
    assert(remap(e, w, ch, f) =~= d);
}

/// The buffered vertical flip undoes itself: flipping twice, with any worker
/// counts, gives back the original pixels.
pub proof fn lemma_vertical_buffered_involution(d: Seq<u8>, w: int, h: int, ch: int)
    requires
        0 <= w,
        0 <= h,
        0 <= ch,
        d.len() == w * h * ch,
    ensures
        remap(remap(d, w, ch, mirror_rows(h)), w, ch, mirror_rows(h)) == d,
{
    lemma_remap_involution(d, w, h, ch, mirror_rows(h));
}

/// The buffered horizontal flip undoes itself: flipping twice, with any worker
/// counts, gives back the original pixels.
pub proof fn lemma_horizontal_buffered_involution(d: Seq<u8>, w: int, h: int, ch: int)
    requires
        0 <= w,
        0 <= h,
        0 <= ch,
        d.len() == w * h * ch,
    ensures
        remap(remap(d, w, ch, inner_cols(w)), w, ch, inner_cols(w)) == d,
{
    lemma_remap_involution(d, w, h, ch, inner_cols(w));
}

/// How the direct and the buffered vertical flips differ: each row that the
/// direct flip moves (`1 <= r < h / 2` or `r > h - h / 2`) holds what the
/// buffered flip puts one row higher, at `r - 1`; every other row, row 0
/// included, keeps its original pixels under the direct flip.
pub proof fn lemma_vertical_direct_vs_buffered(
    d: Seq<u8>,
    w: int,
    h: int,
    ch: int,
    r: int,
    c: int,
    k: int,
)
    requires
        d.len() == w * h * ch,
        0 <= r < h,
        0 <= c < w,
        0 <= k < ch,
    ensures
        remap(d, w, ch, direct_rows(h))[px(w, ch, r, c, k)] == if 1 <= r && (r < h / 2 || r > h - h
            / 2) {
            remap(d, w, ch, mirror_rows(h))[px(w, ch, r - 1, c, k)]
        } else {
            d[px(w, ch, r, c, k)]
        },
{
    lemma_remap_at(d, w, h, ch, direct_rows(h), r, c, k);
    if 1 <= r {
        lemma_remap_at(d, w, h, ch, mirror_rows(h), r - 1, c, k);
    }
}

} // verus!
