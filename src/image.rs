use crate::layout::{
    exchange_two_pixels as exchange_in,
    lemma_px_apart,
    lemma_px_in_buffer,
    lemma_px_row,
    lemma_px_split,
    lemma_row_apart,
    moved,
    px,
    remap,
    swap_spans,
};
use crate::partition::{lemma_first_range, lemma_ranges_meet, partition, range_begin, range_end};
use crate::laws::lemma_remap_at;
use crate::utils::{four_u8_to_i32, le_u32};
use vstd::prelude::*;
use vstd::slice::{slice_subrange, slice_to_vec};

verus! {

/// Why a buffer cannot become an image.
#[derive(Debug, Clone, Copy, PartialEq, Eq, Structural)]
pub enum ImageError {
    /// The pixel bytes are not `width * height * channel` long.
    LengthMismatch,
    /// A bitmap file ends before its header or its pixels do.
    Truncated,
}

/// Bytes of a bitmap file before its pixels.
pub const PIXEL_OFFSET: usize = 54;

/// Where a bitmap header keeps the width, a little-endian `u32`.
pub const WIDTH_OFFSET: usize = 18;

/// Where a bitmap header keeps the height, a little-endian `u32`.
pub const HEIGHT_OFFSET: usize = 22;

/// Bytes per pixel in a bitmap file.
pub const BITMAP_CHANNELS: u32 = 3;

/// Where the pixels of bitmap file `s` end, as its header gives it.
pub open spec fn bitmap_end(s: Seq<u8>) -> int {
    PIXEL_OFFSET + BITMAP_CHANNELS * le_u32_at(s, WIDTH_OFFSET as int) * le_u32_at(
        s,
        HEIGHT_OFFSET as int,
    )
}

/// The little-endian `u32` at byte `at` of `s`.
pub open spec fn le_u32_at(s: Seq<u8>, at: int) -> int {
    le_u32(s[at], s[at + 1], s[at + 2], s[at + 3])
}

/// A row-major pixel buffer with `channel` bytes per pixel, between the
/// header and the trailer of the file it came from.
pub struct Image {
    header: Vec<u8>,
    tail: Vec<u8>,
    width: u32,
    height: u32,
    channel: u32,
    data: Vec<u8>,
}

/// Source of each pixel after the buffered vertical flip: row `r` takes row `h - 1 - r`.
pub open spec fn mirror_rows(h: int) -> spec_fn(int, int) -> (int, int) {
    |r: int, c: int| (h - 1 - r, c)
}

/// Source of each pixel after the direct vertical flip: row `r` takes row `h - r`
/// for `1 <= r < h / 2` and for `r > h - h / 2`; row 0 and the middle rows stay.
pub open spec fn direct_rows(h: int) -> spec_fn(int, int) -> (int, int) {
    |r: int, c: int|
        if 1 <= r && (r < h / 2 || r > h - h / 2) {
            (h - r, c)
        } else {
            (r, c)
        }
}

/// Source of each pixel after the buffered horizontal flip: column `c` takes
/// column `w - c` for `1 <= c < w / 2` and for `c > w - w / 2`; column 0 and the
/// middle columns stay.
pub open spec fn inner_cols(w: int) -> spec_fn(int, int) -> (int, int) {
    |r: int, c: int|
        if 1 <= c && (c < w / 2 || c > w - w / 2) {
            (r, w - c)
        } else {
            (r, c)
        }
}

/// Source of each pixel after the direct horizontal flip: as `inner_cols`, and
/// when `w >= 2` column 0 moves up by one row, the top pixel wrapping to the bottom.
pub open spec fn direct_cols(w: int, h: int) -> spec_fn(int, int) -> (int, int) {
    |r: int, c: int|
        if c == 0 && 2 <= w {
            (
                if r + 1 < h {
                    r + 1
                } else {
                    0
                },
                0,
            )
        } else {
            inner_cols(w)(r, c)
        }
}

/// A buffer that `src` rearranges keeps its contents once `src` is replaced by
/// a map that agrees with it on every pixel.
pub proof fn lemma_moved_ext(
    new: Seq<u8>,
    old: Seq<u8>,
    w: int,
    h: int,
    ch: int,
    f: spec_fn(int, int) -> (int, int),
    g: spec_fn(int, int) -> (int, int),
)
    requires
        moved(new, old, w, h, ch, f),
        forall|r: int, c: int| 0 <= r < h && 0 <= c < w ==> #[trigger] f(r, c) == g(r, c),
    ensures
        moved(new, old, w, h, ch, g),
{
    assert forall|r: int, c: int, k: int| 0 <= r < h && 0 <= c < w && 0 <= k < ch implies #[trigger] new[px(w, ch, r, c, k)]
        == old[px(w, ch, g(r, c).0, g(r, c).1, k)] by {
        assert(f(r, c) == g(r, c));
    }
}

/// A buffer rearranged pixel by pixel, within the image, is the remapped buffer.
pub proof fn lemma_moved_remap(
    new: Seq<u8>,
    old: Seq<u8>,
    w: int,
    h: int,
    ch: int,
    f: spec_fn(int, int) -> (int, int),
)
    requires
        0 <= w,
        0 <= h,
        0 <= ch,
        old.len() == w * h * ch,
        moved(new, old, w, h, ch, f),
    ensures
        new == remap(old, w, ch, f),
{
    assert forall|i: int| 0 <= i < new.len() implies new[i] == remap(old, w, ch, f)[i] by {
        lemma_px_split(w, h, ch, i);
        let p = i / ch;
        assert(new[px(w, ch, p / w, p % w, i % ch)] == old[px(
            w,
            ch,
            f(p / w, p % w).0,
            f(p / w, p % w).1,
            i % ch,
        )]);
    }
    assert(new =~= remap(old, w, ch, f));
}

/// Exchanging two distinct pixels of a rearranged buffer exchanges their sources.
pub proof fn lemma_swap_moved(
    cur: Seq<u8>,
    old: Seq<u8>,
    w: int,
    h: int,
    ch: int,
    f: spec_fn(int, int) -> (int, int),
    r1: int,
    c1: int,
    r2: int,
    c2: int,
)
    requires
        moved(cur, old, w, h, ch, f),
        cur.len() == w * h * ch,
        0 <= r1 < h,
        0 <= c1 < w,
        0 <= r2 < h,
        0 <= c2 < w,
        r1 != r2 || c1 != c2,
    ensures
        moved(
            swap_spans(cur, px(w, ch, r1, c1, 0), px(w, ch, r2, c2, 0), ch),
            old,
            w,
            h,
            ch,
            |r: int, c: int|
                if r == r1 && c == c1 {
                    f(r2, c2)
                } else if r == r2 && c == c2 {
                    f(r1, c1)
                } else {
                    f(r, c)
                },
        ),
{
    let a = px(w, ch, r1, c1, 0);
    let b = px(w, ch, r2, c2, 0);
    let s = swap_spans(cur, a, b, ch);
    let g = |r: int, c: int|
        if r == r1 && c == c1 {
            f(r2, c2)
        } else if r == r2 && c == c2 {
            f(r1, c1)
        } else {
            f(r, c)
        };
    assert forall|r: int, c: int, k: int| 0 <= r < h && 0 <= c < w && 0 <= k < ch implies #[trigger] s[px(w, ch, r, c, k)]
        == old[px(w, ch, g(r, c).0, g(r, c).1, k)] by {
        lemma_px_in_buffer(w, h, ch, r, c, k);
        lemma_px_in_buffer(w, h, ch, r1, c1, k);
        lemma_px_in_buffer(w, h, ch, r2, c2, k);
        assert(cur[px(w, ch, r1, c1, k)] == old[px(w, ch, f(r1, c1).0, f(r1, c1).1, k)]);
        assert(cur[px(w, ch, r2, c2, k)] == old[px(w, ch, f(r2, c2).0, f(r2, c2).1, k)]);
        assert(cur[px(w, ch, r, c, k)] == old[px(w, ch, f(r, c).0, f(r, c).1, k)]);
        if r == r1 && c == c1 {
        } else if r == r2 && c == c2 {
            lemma_px_apart(w, ch, r, c, k, r1, c1);
        } else {
            lemma_px_apart(w, ch, r, c, k, r1, c1);
            lemma_px_apart(w, ch, r, c, k, r2, c2);
        }
    }
}

/// Exchanging two distinct rows of a rearranged buffer exchanges their sources.
pub proof fn lemma_rows_swapped(
    cur: Seq<u8>,
    old: Seq<u8>,
    w: int,
    h: int,
    ch: int,
    f: spec_fn(int, int) -> (int, int),
    r1: int,
    r2: int,
)
    requires
        moved(cur, old, w, h, ch, f),
        cur.len() == w * h * ch,
        0 <= r1 < h,
        0 <= r2 < h,
        r1 != r2,
    ensures
        moved(
            swap_spans(cur, r1 * (w * ch), r2 * (w * ch), w * ch),
            old,
            w,
            h,
            ch,
            |r: int, c: int|
                if r == r1 {
                    f(r2, c)
                } else if r == r2 {
                    f(r1, c)
                } else {
                    f(r, c)
                },
        ),
{
    let span = w * ch;
    let s = swap_spans(cur, r1 * span, r2 * span, span);
    let g = |r: int, c: int|
        if r == r1 {
            f(r2, c)
        } else if r == r2 {
            f(r1, c)
        } else {
            f(r, c)
        };
    assert forall|r: int, c: int, k: int| 0 <= r < h && 0 <= c < w && 0 <= k < ch implies #[trigger] s[px(w, ch, r, c, k)]
        == old[px(w, ch, g(r, c).0, g(r, c).1, k)] by {
        lemma_px_in_buffer(w, h, ch, r, c, k);
        lemma_px_row(w, ch, r, c, k);
        lemma_px_row(w, ch, r1, c, k);
        lemma_px_row(w, ch, r2, c, k);
        let o = px(w, ch, 0, c, k);
        assert(cur[px(w, ch, r1, c, k)] == old[px(w, ch, f(r1, c).0, f(r1, c).1, k)]);
        assert(cur[px(w, ch, r2, c, k)] == old[px(w, ch, f(r2, c).0, f(r2, c).1, k)]);
        assert(cur[px(w, ch, r, c, k)] == old[px(w, ch, f(r, c).0, f(r, c).1, k)]);
        if r == r1 {
        } else if r == r2 {
            lemma_row_apart(span, r, o, r1);
        } else {
            lemma_row_apart(span, r, o, r1);
            lemma_row_apart(span, r, o, r2);
        }
    }
}

/// Rearranging twice rearranges by the composed map.
pub proof fn lemma_moved_compose(
    a: Seq<u8>,
    b: Seq<u8>,
    c: Seq<u8>,
    w: int,
    h: int,
    ch: int,
    f: spec_fn(int, int) -> (int, int),
    g: spec_fn(int, int) -> (int, int),
)
    requires
        moved(b, a, w, h, ch, f),
        moved(c, b, w, h, ch, g),
        forall|r: int, col: int|
            0 <= r < h && 0 <= col < w ==> 0 <= (#[trigger] g(r, col)).0 < h && 0 <= g(r, col).1 < w,
    ensures
        moved(c, a, w, h, ch, |r: int, col: int| f(g(r, col).0, g(r, col).1)),
{
    assert forall|r: int, col: int, k: int| 0 <= r < h && 0 <= col < w && 0 <= k < ch implies #[trigger] c[px(w, ch, r, col, k)]
        == a[px(w, ch, f(g(r, col).0, g(r, col).1).0, f(g(r, col).0, g(r, col).1).1, k)] by {
        let q = g(r, col);
        assert(b[px(w, ch, q.0, q.1, k)] == a[px(w, ch, f(q.0, q.1).0, f(q.0, q.1).1, k)]);
    }
}

/// Where column 0 of row `i` takes its pixel from once the first `m` rows have
/// exchanged their first pixel with the row below.
pub open spec fn shifted_row(i: int, m: int) -> int {
    if i < m {
        i + 1
    } else if i == m {
        0
    } else {
        i
    }
}

/// Sources after the direct horizontal pass has finished rows below `k` and
/// the first `j` steps of row `k`.
pub open spec fn direct_cols_upto(w: int, h: int, k: int, j: int) -> spec_fn(int, int) -> (
    int,
    int,
) {
    |r: int, c: int|
        if c == 0 && 2 <= w {
            (
                shifted_row(
                    r,
                    if k + (if j >= 1 {
                        1int
                    } else {
                        0int
                    }) < h - 1 {
                        k + (if j >= 1 {
                            1int
                        } else {
                            0int
                        })
                    } else {
                        h - 1
                    },
                ),
                0,
            )
        } else if r < k || (r == k && 1 <= c && (c < j || c > w - j)) {
            inner_cols(w)(r, c)
        } else {
            (r, c)
        }
}

/// Mirrors a one-row buffer of `width` pixels left to right: column `c` takes
/// column `width - c` for `1 <= c < width / 2` and for `c > width - width / 2`;
/// column 0 and the middle columns stay.
pub fn mirror_row(buf: &mut Vec<u8>, width: u32, channel: u32)
    requires
        old(buf)@.len() == width * channel,
    ensures
        final(buf)@ == remap(old(buf)@, width as int, channel as int, inner_cols(width as int)),
{
    let ghost w = width as int;
    let ghost ch = channel as int;
    let ghost b0 = buf@;
    assert(b0.len() == w * 1 * ch);
    proof {
        assert(moved(b0, b0, w, 1, ch, |r: int, c: int| if 1 <= c < 1 || c > w - 1 { (r, w - c) } else { (r, c) }));
    }
    let half = width / 2;
    // Column 0 would pair with column `width`, which lies past a one-row buffer.
    let mut col: u32 = 1;
    while col < half
        invariant
            w == width,
            ch == channel,
            half == w / 2,
            1 <= col,
            col <= half || col == 1,
            buf@.len() == w * 1 * ch,
            moved(buf@, b0, w, 1, ch, |r: int, c: int| if 1 <= c < col || c > w - col { (r, w - c) } else { (r, c) }),
        decreases half - col,
    {
        let ghost cur = buf@;
        let ghost f = |r: int, c: int| if 1 <= c < col || c > w - col { (r, w - c) } else { (r, c) };
        let ghost f2 = |r: int, c: int| if 1 <= c < col + 1 || c > w - (col + 1) { (r, w - c) } else { (r, c) };
        exchange_in(buf, (0, col, 0, width - col), width, 1, channel);
        proof {
            if ch == 0 {
                assert(moved(buf@, b0, w, 1, ch, f2));
            } else {
                lemma_px_in_buffer(w, 1, ch, 0, col as int, 0);
                lemma_px_in_buffer(w, 1, ch, 0, w - col, 0);
                lemma_swap_moved(cur, b0, w, 1, ch, f, 0, col as int, 0, w - col);
                let g = |r: int, c: int|
                    if r == 0 && c == col {
                        f(0, w - col)
                    } else if r == 0 && c == w - col {
                        f(0, col as int)
                    } else {
                        f(r, c)
                    };
                lemma_moved_ext(buf@, b0, w, 1, ch, g, f2);
            }
        }
        col = col + 1;
    }
    proof {
        let f = |r: int, c: int| if 1 <= c < col || c > w - col { (r, w - c) } else { (r, c) };
        assert forall|r: int, c: int| 0 <= r < 1 && 0 <= c < w implies #[trigger] f(r, c) == inner_cols(w)(r, c) by {
            if half == 0 {
                assert(col == 1);
            } else {
                assert(col == half);
            }
        }
        lemma_moved_ext(buf@, b0, w, 1, ch, f, inner_cols(w));
        lemma_moved_remap(buf@, b0, w, 1, ch, inner_cols(w));
    }
}

impl Image {
    /// The pixel bytes.
    pub closed spec fn pixels(&self) -> Seq<u8> {
        self.data@
    }

    /// Width in pixels.
    pub closed spec fn w(&self) -> int {
        self.width as int
    }

    /// Height in pixels.
    pub closed spec fn h(&self) -> int {
        self.height as int
    }

    /// Bytes per pixel.
    pub closed spec fn ch(&self) -> int {
        self.channel as int
    }

    /// The bytes before the pixels in the file.
    pub closed spec fn head(&self) -> Seq<u8> {
        self.header@
    }

    /// The bytes after the pixels in the file.
    pub closed spec fn trailer(&self) -> Seq<u8> {
        self.tail@
    }

    /// The pixel buffer holds exactly `width * height * channel` bytes.
    pub open spec fn wf(&self) -> bool {
        self.pixels().len() == self.w() * self.h() * self.ch()
    }

    /// `other` has the same dimensions, header and trailer as `self`.
    pub open spec fn same_frame(&self, other: &Image) -> bool {
        &&& other.w() == self.w()
        &&& other.h() == self.h()
        &&& other.ch() == self.ch()
        &&& other.head() == self.head()
        &&& other.trailer() == self.trailer()
    }

    /// Builds an image from copies of its parts; fails when `data` is not
    /// `width * height * channel` bytes long.
    pub fn new(
        header: &[u8],
        tail: &[u8],
        width: u32,
        height: u32,
        channel: u32,
        data: &[u8],
    ) -> (r: Result<Image, ImageError>)
        ensures
            r is Ok <==> data@.len() == width * height * channel,
            r matches Ok(img) ==> {
                &&& img.wf()
                &&& img.pixels() == data@
                &&& img.head() == header@
                &&& img.trailer() == tail@
                &&& img.w() == width
                &&& img.h() == height
                &&& img.ch() == channel
            },
    {
        assert((width as int) * (height as int) <= 0xffff_ffff_ffff_ffff) by (nonlinear_arith)
            requires
                0 <= width <= 0xffff_ffff,
                0 <= height <= 0xffff_ffff,
        ;
        let n = (width as u128) * (height as u128);
        assert((n as int) * (channel as int) <= 0xffff_ffff_ffff_ffff_ffff_ffff) by (nonlinear_arith)
            requires
                0 <= n <= 0xffff_ffff_ffff_ffff,
                0 <= channel <= 0xffff_ffff,
        ;
        if n * (channel as u128) != data.len() as u128 {
            return Err(ImageError::LengthMismatch);
        }
        Ok(
            Image {
                header: slice_to_vec(header),
                tail: slice_to_vec(tail),
                width,
                height,
                channel,
                data: slice_to_vec(data),
            },
        )
    }

    /// Reads a bitmap file: the width and height from the header, then
    /// `3 * width * height` pixel bytes from offset 54, and the rest as the
    /// trailer. Fails when the file ends before the header or the pixels do.
    pub fn from_bitmap(content: &[u8]) -> (r: Result<Image, ImageError>)
        ensures
            r is Err <==> content@.len() < PIXEL_OFFSET || bitmap_end(content@) > content@.len(),
            r is Err ==> r == Err::<Image, ImageError>(ImageError::Truncated),
            r matches Ok(img) ==> {
                &&& img.wf()
                &&& img.w() == le_u32_at(content@, WIDTH_OFFSET as int)
                &&& img.h() == le_u32_at(content@, HEIGHT_OFFSET as int)
                &&& img.ch() == BITMAP_CHANNELS
                &&& img.head() == content@.subrange(0, PIXEL_OFFSET as int)
                &&& img.pixels() == content@.subrange(PIXEL_OFFSET as int, bitmap_end(content@))
                &&& img.trailer() == content@.subrange(bitmap_end(content@), content@.len() as int)
            },
    {
        if content.len() < PIXEL_OFFSET {
            return Err(ImageError::Truncated);
        }
        let width = four_u8_to_i32(slice_subrange(content, WIDTH_OFFSET, WIDTH_OFFSET + 4));
        let height = four_u8_to_i32(slice_subrange(content, HEIGHT_OFFSET, HEIGHT_OFFSET + 4));
        assert((width as int) * (height as int) <= 0xffff_ffff_ffff_ffff) by (nonlinear_arith)
            requires
                0 <= width <= 0xffff_ffff,
                0 <= height <= 0xffff_ffff,
        ;
        let size = (BITMAP_CHANNELS as u128) * ((width as u128) * (height as u128));
        assert(size == BITMAP_CHANNELS * width * height && size == width * height
            * BITMAP_CHANNELS) by (nonlinear_arith)
            requires
                size == 3 * (width * height),
        ;
        assert(width == le_u32_at(content@, WIDTH_OFFSET as int));
        assert(height == le_u32_at(content@, HEIGHT_OFFSET as int));
        if (PIXEL_OFFSET as u128) + size > content.len() as u128 {
            return Err(ImageError::Truncated);
        }
        let end = PIXEL_OFFSET + size as usize;
        let header = slice_subrange(content, 0, PIXEL_OFFSET);
        let pixels = slice_subrange(content, PIXEL_OFFSET, end);
        let tail = slice_subrange(content, end, content.len());
        Ok(
            Image {
                header: slice_to_vec(header),
                tail: slice_to_vec(tail),
                width,
                height,
                channel: BITMAP_CHANNELS,
                data: slice_to_vec(pixels),
            },
        )
    }

    /// Replaces the pixel bytes; fails, leaving the image as it was, when `data`
    /// is not `width * height * channel` bytes long.
    pub fn set_pixels(&mut self, data: Vec<u8>) -> (r: Result<(), ImageError>)
        requires
            old(self).wf(),
        ensures
            final(self).wf(),
            old(self).same_frame(final(self)),
            r is Ok <==> data@.len() == old(self).pixels().len(),
            r is Ok ==> final(self).pixels() == data@,
            r is Err ==> r == Err::<(), ImageError>(ImageError::LengthMismatch) && final(self).pixels()
                == old(self).pixels(),
    {
        if data.len() != self.data.len() {
            return Err(ImageError::LengthMismatch);
        }
        self.data = data;
        Ok(())
    }

    /// The file bytes: header, then pixels, then trailer.
    pub fn to_bytes(&self) -> (r: Vec<u8>)
        ensures
            r@ == self.head() + self.pixels() + self.trailer(),
    {
        let mut out = slice_to_vec(self.header.as_slice());
        let mut pixels = slice_to_vec(self.data.as_slice());
        let mut tail = slice_to_vec(self.tail.as_slice());
        out.append(&mut pixels);
        out.append(&mut tail);
        out
    }

    /// Width in pixels.
    pub fn width(&self) -> (r: u32)
        ensures
            r == self.w(),
    {
        self.width
    }

    /// Height in pixels.
    pub fn height(&self) -> (r: u32)
        ensures
            r == self.h(),
    {
        self.height
    }

    /// Bytes per pixel.
    pub fn channel(&self) -> (r: u32)
        ensures
            r == self.ch(),
    {
        self.channel
    }

    /// The pixel bytes.
    pub fn data(&self) -> (r: &[u8])
        ensures
            r@ == self.pixels(),
    {
        self.data.as_slice()
    }

    /// Exchanges the pixel at (`row1`, `col1`) with the pixel at (`row2`, `col2`);
    /// does nothing when either pixel's bytes would end past the buffer.
    pub fn exchange_two_pixels(&mut self, position: (u32, u32, u32, u32))
        requires
            old(self).wf(),
        ensures
            final(self).wf(),
            old(self).same_frame(final(self)),
            ({
                let (row1, col1, row2, col2) = position;
                let ch = old(self).ch();
                let a = px(old(self).w(), ch, row1 as int, col1 as int, 0);
                let b = px(old(self).w(), ch, row2 as int, col2 as int, 0);
                if a + ch <= old(self).pixels().len() && b + ch <= old(self).pixels().len() {
                    final(self).pixels() == swap_spans(old(self).pixels(), a, b, ch)
                } else {
                    final(self).pixels() == old(self).pixels()
                }
            }),
    {
        exchange_in(&mut self.data, position, self.width, self.height, self.channel);
    }

    /// Mirrors column `col` top to bottom by direct swaps of (row, col) with
    /// (height - row, col) for each row below height / 2.
    fn flip_column_direct(&mut self, col: u32, Ghost(d0): Ghost<Seq<u8>>)
        requires
            old(self).wf(),
            col < old(self).w(),
            moved(
                old(self).pixels(),
                d0,
                old(self).w(),
                old(self).h(),
                old(self).ch(),
                |r: int, c: int|
                    if c < col {
                        direct_rows(old(self).h())(r, c)
                    } else {
                        (r, c)
                    },
            ),
        ensures
            final(self).wf(),
            old(self).same_frame(final(self)),
            moved(
                final(self).pixels(),
                d0,
                old(self).w(),
                old(self).h(),
                old(self).ch(),
                |r: int, c: int|
                    if c <= col {
                        direct_rows(old(self).h())(r, c)
                    } else {
                        (r, c)
                    },
            ),
    {
        let ghost w = self.w();
        let ghost h = self.h();
        let ghost ch = self.ch();
        let half = self.height / 2;
        let mut row: u32 = 0;
        while row < half
            invariant
                self.wf(),
                old(self).same_frame(self),
                w == self.w(),
                h == self.h(),
                ch == self.ch(),
                col < w,
                half == h / 2,
                row <= half,
                moved(
                    self.pixels(),
                    d0,
                    w,
                    h,
                    ch,
                    |r: int, c: int|
                        if c < col || (c == col && (r < row || r > h - row)) {
                            direct_rows(h)(r, c)
                        } else {
                            (r, c)
                        },
                ),
            decreases half - row,
        {
            let ghost cur = self.pixels();
            let ghost f = |r: int, c: int|
                if c < col || (c == col && (r < row || r > h - row)) {
                    direct_rows(h)(r, c)
                } else {
                    (r, c)
                };
            let ghost f2 = |r: int, c: int|
                if c < col || (c == col && (r < row + 1 || r > h - (row + 1))) {
                    direct_rows(h)(r, c)
                } else {
                    (r, c)
                };
            let exchange_row = self.height - row;
            self.exchange_two_pixels((row, col, exchange_row, col));
            proof {
                if row == 0 {
                    if ch > 0 {
                        assert(px(w, ch, h, col as int, 0) + ch > w * h * ch) by (nonlinear_arith)
                            requires
                                0 < ch,
                                0 <= col,
                                0 <= w,
                        ;
                    }
                    if ch == 0 {
                        assert(moved(self.pixels(), d0, w, h, ch, f2));
                    } else {
                        lemma_moved_ext(self.pixels(), d0, w, h, ch, f, f2);
                    }
                } else if ch == 0 {
                    assert(moved(self.pixels(), d0, w, h, ch, f2));
                } else {
                    lemma_px_in_buffer(w, h, ch, row as int, col as int, 0);
                    lemma_px_in_buffer(w, h, ch, h - row, col as int, 0);
                    lemma_swap_moved(cur, d0, w, h, ch, f, row as int, col as int, h - row, col as int);
                    let g = |r: int, c: int|
                        if r == row && c == col {
                            f(h - row, col as int)
                        } else if r == h - row && c == col {
                            f(row as int, col as int)
                        } else {
                            f(r, c)
                        };
                    lemma_moved_ext(self.pixels(), d0, w, h, ch, g, f2);
                }
            }
            row = row + 1;
        }
        proof {
            let f = |r: int, c: int|
                if c < col || (c == col && (r < row || r > h - row)) {
                    direct_rows(h)(r, c)
                } else {
                    (r, c)
                };
            let f2 = |r: int, c: int|
                if c <= col {
                    direct_rows(h)(r, c)
                } else {
                    (r, c)
                };
            lemma_moved_ext(self.pixels(), d0, w, h, ch, f, f2);
        }
    }

    /// Flips the image top to bottom by direct swaps, column by column: row `r`
    /// takes row `height - r` for `1 <= r < height / 2` and for
    /// `r > height - height / 2`; every other row stays.
    pub fn flip_vertical(&mut self)
        requires
            old(self).wf(),
        ensures
            final(self).wf(),
            old(self).same_frame(final(self)),
            final(self).pixels() == remap(
                old(self).pixels(),
                old(self).w(),
                old(self).ch(),
                direct_rows(old(self).h()),
            ),
    {
        let ghost d0 = self.pixels();
        let ghost w = self.w();
        let ghost h = self.h();
        let ghost ch = self.ch();
        proof {
            assert(moved(d0, d0, w, h, ch, |r: int, c: int| if c < 0 { direct_rows(h)(r, c) } else { (r, c) }));
        }
        let mut col: u32 = 0;
        while col < self.width
            invariant
                self.wf(),
                old(self).same_frame(self),
                w == self.w(),
                h == self.h(),
                ch == self.ch(),
                d0 == old(self).pixels(),
                col <= w,
                moved(self.pixels(), d0, w, h, ch, |r: int, c: int| if c < col { direct_rows(h)(r, c) } else { (r, c) }),
            decreases w - col,
        {
            self.flip_column_direct(col, Ghost(d0));
            proof {
                let f = |r: int, c: int| if c <= col { direct_rows(h)(r, c) } else { (r, c) };
                let f2 = |r: int, c: int| if c < col + 1 { direct_rows(h)(r, c) } else { (r, c) };
                lemma_moved_ext(self.pixels(), d0, w, h, ch, f, f2);
            }
            col = col + 1;
        }
        proof {
            let f = |r: int, c: int| if c < col { direct_rows(h)(r, c) } else { (r, c) };
            lemma_moved_ext(self.pixels(), d0, w, h, ch, f, direct_rows(h));
            lemma_moved_remap(self.pixels(), d0, w, h, ch, direct_rows(h));
        }
    }

    /// Exchanges rows `r1` and `r2` whole: each is staged in a buffer of its
    /// own, then each buffer is written over the other row.
    fn swap_rows(&mut self, r1: usize, r2: usize)
        requires
            old(self).wf(),
            r1 < old(self).h(),
            r2 < old(self).h(),
            r1 != r2,
        ensures
            final(self).wf(),
            old(self).same_frame(final(self)),
            final(self).pixels() == swap_spans(
                old(self).pixels(),
                r1 * (old(self).w() * old(self).ch()),
                r2 * (old(self).w() * old(self).ch()),
                old(self).w() * old(self).ch(),
            ),
    {
        let ghost w = self.w();
        let ghost h = self.h();
        let ghost ch = self.ch();
        let ghost d = self.pixels();
        let len = self.data.len();
        assert(r1 * (w * ch) + w * ch <= w * h * ch && r2 * (w * ch) + w * ch <= w * h * ch) by (nonlinear_arith)
            requires
                0 <= r1 < h,
                0 <= r2 < h,
                0 <= w,
                0 <= ch,
        ;
        assert(w * ch <= w * h * ch) by (nonlinear_arith)
            requires
                0 <= r1 < h,
                0 <= w,
                0 <= ch,
        ;
        let span = (self.width as usize) * (self.channel as usize);
        let s1 = r1 * span;
        let s2 = r2 * span;
        proof {
            if span > 0 {
                lemma_row_apart(span as int, r1 as int, 0, r2 as int);
                lemma_row_apart(span as int, r2 as int, 0, r1 as int);
            }
        }
        let mut buf1: Vec<u8> = Vec::with_capacity(span);
        let mut buf2: Vec<u8> = Vec::with_capacity(span);
        let mut o: usize = 0;
        while o < span
            invariant
                self.pixels() == d,
                len == d.len(),
                s1 + span <= len,
                s2 + span <= len,
                o <= span,
                buf1@.len() == o,
                buf2@.len() == o,
                forall|j: int| 0 <= j < o ==> #[trigger] buf1@[j] == d[s1 + j],
                forall|j: int| 0 <= j < o ==> #[trigger] buf2@[j] == d[s2 + j],
            decreases span - o,
        {
            buf1.push(self.data[s1 + o]);
            buf2.push(self.data[s2 + o]);
            o = o + 1;
        }
        o = 0;
        while o < span
            invariant
                self.wf(),
                old(self).same_frame(self),
                self.pixels().len() == d.len(),
                len == d.len(),
                s1 + span <= len,
                s2 + span <= len,
                s1 + span <= s2 || s2 + span <= s1,
                o <= span,
                buf1@.len() == span,
                buf2@.len() == span,
                forall|j: int| 0 <= j < span ==> #[trigger] buf1@[j] == d[s1 + j],
                forall|j: int| 0 <= j < span ==> #[trigger] buf2@[j] == d[s2 + j],
                forall|i: int|
                    0 <= i < len ==> #[trigger] self.pixels()[i] == (if s1 <= i < s1 + o {
                        d[s2 + (i - s1)]
                    } else if s2 <= i < s2 + o {
                        d[s1 + (i - s2)]
                    } else {
                        d[i]
                    }),
            decreases span - o,
        {
            self.data.set(s1 + o, buf2[o]);
            self.data.set(s2 + o, buf1[o]);
            o = o + 1;
        }
        assert(self.pixels() =~= swap_spans(d, s1 as int, s2 as int, span as int));
    }

    /// Flips the image top to bottom with the same direct swaps as
    /// `flip_vertical`, the columns split into `num_threads` disjoint ranges by
    /// `partition`, the last taking the remainder. The work of each range is
    /// done in turn, in range order. Whatever `num_threads` is, the result is
    /// that of `flip_vertical`.
    pub fn flip_vertical_cocurrently(&mut self, num_threads: usize)
        requires
            old(self).wf(),
            1 <= num_threads,
        ensures
            final(self).wf(),
            old(self).same_frame(final(self)),
            final(self).pixels() == remap(
                old(self).pixels(),
                old(self).w(),
                old(self).ch(),
                direct_rows(old(self).h()),
            ),
    {
        let ghost d0 = self.pixels();
        let ghost w = self.w();
        let ghost h = self.h();
        let ghost ch = self.ch();
        let width = self.width as usize;
        let parts = partition(width, num_threads);
        proof {
            assert(moved(d0, d0, w, h, ch, |r: int, c: int| if c < 0 { direct_rows(h)(r, c) } else { (r, c) }));
        }
        let mut t: usize = 0;
        let mut next: usize = 0;
        while t < num_threads
            invariant
                self.wf(),
                old(self).same_frame(self),
                w == self.w(),
                h == self.h(),
                ch == self.ch(),
                d0 == old(self).pixels(),
                width == w,
                parts@.len() == num_threads,
                forall|i: int|
                    0 <= i < num_threads ==> (#[trigger] parts@[i]).0 == range_begin(width as int, num_threads as int, i)
                        && parts@[i].1 == range_end(width as int, num_threads as int, i) && parts@[i].0
                        <= parts@[i].1 <= width,
                t <= num_threads,
                next == (if t == 0 { 0 } else { range_end(width as int, num_threads as int, t - 1) }),
                next <= width,
                moved(self.pixels(), d0, w, h, ch, |r: int, c: int| if c < next { direct_rows(h)(r, c) } else { (r, c) }),
            decreases num_threads - t,
        {
            let (begin, end) = parts[t];
            proof {
                if t > 0 {
                    lemma_ranges_meet(width as int, num_threads as int, t - 1);
                } else {
                    lemma_first_range(width as int, num_threads as int);
                }
            }
            assert(begin == next);
            let mut col: usize = begin;
            while col < end
                invariant
                    self.wf(),
                    old(self).same_frame(self),
                    w == self.w(),
                    h == self.h(),
                    ch == self.ch(),
                    begin <= col <= end,
                    end <= w,
                    moved(self.pixels(), d0, w, h, ch, |r: int, c: int| if c < col { direct_rows(h)(r, c) } else { (r, c) }),
                decreases end - col,
            {
                self.flip_column_direct(col as u32, Ghost(d0));
                proof {
                    let f = |r: int, c: int| if c <= col { direct_rows(h)(r, c) } else { (r, c) };
                    let f2 = |r: int, c: int| if c < col + 1 { direct_rows(h)(r, c) } else { (r, c) };
                    lemma_moved_ext(self.pixels(), d0, w, h, ch, f, f2);
                }
                col = col + 1;
            }
            next = end;
            t = t + 1;
        }
        proof {
            let f = |r: int, c: int| if c < next { direct_rows(h)(r, c) } else { (r, c) };
            lemma_moved_ext(self.pixels(), d0, w, h, ch, f, direct_rows(h));
            lemma_moved_remap(self.pixels(), d0, w, h, ch, direct_rows(h));
        }
    }

    /// Flips the image top to bottom, row `r` taking row `height - 1 - r`: the
    /// top `height / 2` rows are split into `num_threads` disjoint ranges by
    /// `partition`, and each row of a range is exchanged whole with its mirror
    /// row through staging buffers. The ranges are done in turn, in order.
    /// Whatever `num_threads` is, the result is the same.
    pub fn flip_vertical_cocurrently_memory_friendly(&mut self, num_threads: usize)
        requires
            old(self).wf(),
            1 <= num_threads,
        ensures
            final(self).wf(),
            old(self).same_frame(final(self)),
            final(self).pixels() == remap(
                old(self).pixels(),
                old(self).w(),
                old(self).ch(),
                mirror_rows(old(self).h()),
            ),
    {
        let ghost d0 = self.pixels();
        let ghost w = self.w();
        let ghost h = self.h();
        let ghost ch = self.ch();
        let height = self.height as usize;
        let half = height / 2;
        let parts = partition(half, num_threads);
        proof {
            assert(moved(d0, d0, w, h, ch, |r: int, c: int| if r < 0 || r > h - 1 { mirror_rows(h)(r, c) } else { (r, c) }));
        }
        let mut t: usize = 0;
        let mut next: usize = 0;
        while t < num_threads
            invariant
                self.wf(),
                old(self).same_frame(self),
                w == self.w(),
                h == self.h(),
                ch == self.ch(),
                d0 == old(self).pixels(),
                height == h,
                half == h / 2,
                parts@.len() == num_threads,
                forall|i: int|
                    0 <= i < num_threads ==> (#[trigger] parts@[i]).0 == range_begin(half as int, num_threads as int, i)
                        && parts@[i].1 == range_end(half as int, num_threads as int, i) && parts@[i].0
                        <= parts@[i].1 <= half,
                t <= num_threads,
                next == (if t == 0 { 0 } else { range_end(half as int, num_threads as int, t - 1) }),
                next <= half,
                moved(self.pixels(), d0, w, h, ch, |r: int, c: int| if r < next || r > h - 1 - next { mirror_rows(h)(r, c) } else { (r, c) }),
            decreases num_threads - t,
        {
            let (begin, end) = parts[t];
            proof {
                if t > 0 {
                    lemma_ranges_meet(half as int, num_threads as int, t - 1);
                } else {
                    lemma_first_range(half as int, num_threads as int);
                }
            }
            assert(begin == next);
            let mut row: usize = begin;
            while row < end
                invariant
                    self.wf(),
                    old(self).same_frame(self),
                    w == self.w(),
                    h == self.h(),
                    ch == self.ch(),
                    height == h,
                    begin <= row <= end,
                    end <= h / 2,
                    moved(self.pixels(), d0, w, h, ch, |r: int, c: int| if r < row || r > h - 1 - row { mirror_rows(h)(r, c) } else { (r, c) }),
                decreases end - row,
            {
                let ghost cur = self.pixels();
                let exchange_row = height - row - 1;
                self.swap_rows(row, exchange_row);
                proof {
                    let f = |r: int, c: int| if r < row || r > h - 1 - row { mirror_rows(h)(r, c) } else { (r, c) };
                    lemma_rows_swapped(cur, d0, w, h, ch, f, row as int, exchange_row as int);
                    let g = |r: int, c: int|
                        if r == row {
                            f(exchange_row as int, c)
                        } else if r == exchange_row {
                            f(row as int, c)
                        } else {
                            f(r, c)
                        };
                    let f2 = |r: int, c: int| if r < row + 1 || r > h - 1 - (row + 1) { mirror_rows(h)(r, c) } else { (r, c) };
                    lemma_moved_ext(self.pixels(), d0, w, h, ch, g, f2);
                }
                row = row + 1;
            }
            next = end;
            t = t + 1;
        }
        proof {
            let f = |r: int, c: int| if r < next || r > h - 1 - next { mirror_rows(h)(r, c) } else { (r, c) };
            lemma_moved_ext(self.pixels(), d0, w, h, ch, f, mirror_rows(h));
            lemma_moved_remap(self.pixels(), d0, w, h, ch, mirror_rows(h));
        }
    }

    /// Mirrors row `row` left to right through a staging buffer: the row is
    /// copied out, its pixels are exchanged column `c` with column `width - c`
    /// as in a one-row image, and the buffer is copied back.
    fn mirror_row_staged(&mut self, row: usize)
        requires
            old(self).wf(),
            row < old(self).h(),
        ensures
            final(self).wf(),
            old(self).same_frame(final(self)),
            moved(
                final(self).pixels(),
                old(self).pixels(),
                old(self).w(),
                old(self).h(),
                old(self).ch(),
                |r: int, c: int|
                    if r == row {
                        inner_cols(old(self).w())(r, c)
                    } else {
                        (r, c)
                    },
            ),
    {
        let ghost w = self.w();
        let ghost h = self.h();
        let ghost ch = self.ch();
        let ghost d = self.pixels();
        let len = self.data.len();
        assert(row * (w * ch) + w * ch <= w * h * ch) by (nonlinear_arith)
            requires
                0 <= row < h,
                0 <= w,
                0 <= ch,
        ;
        assert(w * ch <= w * h * ch) by (nonlinear_arith)
            requires
                0 <= row < h,
                0 <= w,
                0 <= ch,
        ;
        let span = (self.width as usize) * (self.channel as usize);
        let s = row * span;
        let mut buf: Vec<u8> = Vec::with_capacity(span);
        let mut o: usize = 0;
        while o < span
            invariant
                self.pixels() == d,
                len == d.len(),
                s + span <= len,
                o <= span,
                buf@.len() == o,
                forall|j: int| 0 <= j < o ==> #[trigger] buf@[j] == d[s + j],
            decreases span - o,
        {
            buf.push(self.data[s + o]);
            o = o + 1;
        }
        let ghost b0 = buf@;
        mirror_row(&mut buf, self.width, self.channel);
        o = 0;
        while o < span
            invariant
                self.wf(),
                old(self).same_frame(self),
                self.pixels().len() == d.len(),
                len == d.len(),
                s + span <= len,
                o <= span,
                buf@.len() == span,
                forall|i: int|
                    0 <= i < len ==> #[trigger] self.pixels()[i] == (if s <= i < s + o {
                        buf@[i - s]
                    } else {
                        d[i]
                    }),
            decreases span - o,
        {
            self.data.set(s + o, buf[o]);
            o = o + 1;
        }
        proof {
            let g = |r: int, c: int|
                if r == row {
                    inner_cols(w)(r, c)
                } else {
                    (r, c)
                };
            assert forall|r: int, c: int, k: int| 0 <= r < h && 0 <= c < w && 0 <= k < ch implies #[trigger] self.pixels()[px(w, ch, r, c, k)]
                == d[px(w, ch, g(r, c).0, g(r, c).1, k)] by {
                lemma_px_in_buffer(w, h, ch, r, c, k);
                lemma_px_row(w, ch, r, c, k);
                if r == row {
                    let ic = inner_cols(w)(0, c).1;
                    lemma_px_row(w, ch, r, ic, k);
                    lemma_px_row(w, ch, 0, ic, k);
                    lemma_px_row(w, ch, 0, c, k);
                    lemma_remap_at(b0, w, 1, ch, inner_cols(w), 0, c, k);
                } else {
                    lemma_row_apart(span as int, r, px(w, ch, 0, c, k), row as int);
                }
            }
        }
    }

    /// Mirrors row `row` left to right by direct swaps of (row, col) with
    /// (row, width - col) for each column below width / 2; at column 0 the
    /// partner (row, width) is the first pixel of the next row.
    fn flip_row_direct(&mut self, row: u32, Ghost(d0): Ghost<Seq<u8>>)
        requires
            old(self).wf(),
            row < old(self).h(),
            moved(
                old(self).pixels(),
                d0,
                old(self).w(),
                old(self).h(),
                old(self).ch(),
                direct_cols_upto(old(self).w(), old(self).h(), row as int, 0),
            ),
        ensures
            final(self).wf(),
            old(self).same_frame(final(self)),
            moved(
                final(self).pixels(),
                d0,
                old(self).w(),
                old(self).h(),
                old(self).ch(),
                direct_cols_upto(old(self).w(), old(self).h(), row + 1, 0),
            ),
    {
        let ghost w = self.w();
        let ghost h = self.h();
        let ghost ch = self.ch();
        let half = self.width / 2;
        let mut col: u32 = 0;
        while col < half
            invariant
                self.wf(),
                old(self).same_frame(self),
                w == self.w(),
                h == self.h(),
                ch == self.ch(),
                row < h,
                half == w / 2,
                col <= half,
                moved(self.pixels(), d0, w, h, ch, direct_cols_upto(w, h, row as int, col as int)),
            decreases half - col,
        {
            let ghost cur = self.pixels();
            let ghost f = direct_cols_upto(w, h, row as int, col as int);
            let ghost f2 = direct_cols_upto(w, h, row as int, col + 1);
            let exchange_col = self.width - col;
            self.exchange_two_pixels((row, col, row, exchange_col));
            proof {
                if ch == 0 {
                    assert(moved(self.pixels(), d0, w, h, ch, f2));
                } else if col == 0 {
                    assert(px(w, ch, row as int, w, 0) == px(w, ch, row + 1, 0, 0)) by (nonlinear_arith);
                    if row + 1 < h {
                        lemma_px_in_buffer(w, h, ch, row as int, 0, 0);
                        lemma_px_in_buffer(w, h, ch, row + 1, 0, 0);
                        lemma_swap_moved(cur, d0, w, h, ch, f, row as int, 0, row + 1, 0);
                        let g = |r: int, c: int|
                            if r == row && c == 0 {
                                f(row + 1, 0)
                            } else if r == row + 1 && c == 0 {
                                f(row as int, 0)
                            } else {
                                f(r, c)
                            };
                        lemma_moved_ext(self.pixels(), d0, w, h, ch, g, f2);
                    } else {
                        assert(px(w, ch, row + 1, 0, 0) + ch > w * h * ch) by (nonlinear_arith)
                            requires
                                row + 1 >= h,
                                0 < ch,
                                0 <= w,
                        ;
                        lemma_moved_ext(self.pixels(), d0, w, h, ch, f, f2);
                    }
                } else {
                    lemma_px_in_buffer(w, h, ch, row as int, col as int, 0);
                    lemma_px_in_buffer(w, h, ch, row as int, w - col, 0);
                    lemma_swap_moved(cur, d0, w, h, ch, f, row as int, col as int, row as int, w - col);
                    let g = |r: int, c: int|
                        if r == row && c == col {
                            f(row as int, w - col)
                        } else if r == row && c == w - col {
                            f(row as int, col as int)
                        } else {
                            f(r, c)
                        };
                    lemma_moved_ext(self.pixels(), d0, w, h, ch, g, f2);
                }
            }
            col = col + 1;
        }
        proof {
            lemma_moved_ext(
                self.pixels(),
                d0,
                w,
                h,
                ch,
                direct_cols_upto(w, h, row as int, col as int),
                direct_cols_upto(w, h, row + 1, 0),
            );
        }
    }

    /// Flips the image left to right by direct swaps, row by row: column `c`
    /// takes column `width - c` for `1 <= c < width / 2` and for
    /// `c > width - width / 2`. When `width >= 2` the swap at column 0 pairs each
    /// row's first pixel with the next row's, so column 0 moves up one row and
    /// its top pixel ends at the bottom.
    pub fn flip_horizontal(&mut self)
        requires
            old(self).wf(),
        ensures
            final(self).wf(),
            old(self).same_frame(final(self)),
            final(self).pixels() == remap(
                old(self).pixels(),
                old(self).w(),
                old(self).ch(),
                direct_cols(old(self).w(), old(self).h()),
            ),
    {
        let ghost d0 = self.pixels();
        let ghost w = self.w();
        let ghost h = self.h();
        let ghost ch = self.ch();
        proof {
            assert(moved(d0, d0, w, h, ch, |r: int, c: int| (r, c)));
            lemma_moved_ext(d0, d0, w, h, ch, |r: int, c: int| (r, c), direct_cols_upto(w, h, 0, 0));
        }
        let mut row: u32 = 0;
        while row < self.height
            invariant
                self.wf(),
                old(self).same_frame(self),
                w == self.w(),
                h == self.h(),
                ch == self.ch(),
                d0 == old(self).pixels(),
                row <= h,
                moved(self.pixels(), d0, w, h, ch, direct_cols_upto(w, h, row as int, 0)),
            decreases h - row,
        {
            self.flip_row_direct(row, Ghost(d0));
            row = row + 1;
        }
        proof {
            lemma_moved_ext(self.pixels(), d0, w, h, ch, direct_cols_upto(w, h, row as int, 0), direct_cols(w, h));
            lemma_moved_remap(self.pixels(), d0, w, h, ch, direct_cols(w, h));
        }
    }

    /// Flips the image left to right with the same direct swaps as
    /// `flip_horizontal`, the rows split into `num_threads` disjoint ranges by
    /// `partition`, the last taking the remainder. The ranges are done in turn,
    /// in order: the swap at column 0 reaches into the next row, which may lie
    /// in the next range. Whatever `num_threads` is, the result is that of
    /// `flip_horizontal`.
    pub fn flip_horizontal_cocurrently(&mut self, num_threads: usize)
        requires
            old(self).wf(),
            1 <= num_threads,
        ensures
            final(self).wf(),
            old(self).same_frame(final(self)),
            final(self).pixels() == remap(
                old(self).pixels(),
                old(self).w(),
                old(self).ch(),
                direct_cols(old(self).w(), old(self).h()),
            ),
    {
        let ghost d0 = self.pixels();
        let ghost w = self.w();
        let ghost h = self.h();
        let ghost ch = self.ch();
        let height = self.height as usize;
        let parts = partition(height, num_threads);
        proof {
            assert(moved(d0, d0, w, h, ch, |r: int, c: int| (r, c)));
            lemma_moved_ext(d0, d0, w, h, ch, |r: int, c: int| (r, c), direct_cols_upto(w, h, 0, 0));
        }
        let mut t: usize = 0;
        let mut next: usize = 0;
        while t < num_threads
            invariant
                self.wf(),
                old(self).same_frame(self),
                w == self.w(),
                h == self.h(),
                ch == self.ch(),
                d0 == old(self).pixels(),
                height == h,
                parts@.len() == num_threads,
                forall|i: int|
                    0 <= i < num_threads ==> (#[trigger] parts@[i]).0 == range_begin(height as int, num_threads as int, i)
                        && parts@[i].1 == range_end(height as int, num_threads as int, i) && parts@[i].0
                        <= parts@[i].1 <= height,
                t <= num_threads,
                next == (if t == 0 { 0 } else { range_end(height as int, num_threads as int, t - 1) }),
                next <= height,
                moved(self.pixels(), d0, w, h, ch, direct_cols_upto(w, h, next as int, 0)),
            decreases num_threads - t,
        {
            let (begin, end) = parts[t];
            proof {
                if t > 0 {
                    lemma_ranges_meet(height as int, num_threads as int, t - 1);
                } else {
                    lemma_first_range(height as int, num_threads as int);
                }
            }
            assert(begin == next);
            let mut row: usize = begin;
            while row < end
                invariant
                    self.wf(),
                    old(self).same_frame(self),
                    w == self.w(),
                    h == self.h(),
                    ch == self.ch(),
                    begin <= row <= end,
                    end <= h,
                    moved(self.pixels(), d0, w, h, ch, direct_cols_upto(w, h, row as int, 0)),
                decreases end - row,
            {
                self.flip_row_direct(row as u32, Ghost(d0));
                row = row + 1;
            }
            next = end;
            t = t + 1;
        }
        proof {
            lemma_moved_ext(self.pixels(), d0, w, h, ch, direct_cols_upto(w, h, next as int, 0), direct_cols(w, h));
            lemma_moved_remap(self.pixels(), d0, w, h, ch, direct_cols(w, h));
        }
    }

    /// Flips the image left to right a row at a time through a staging buffer:
    /// the rows are split into `num_threads` disjoint ranges by `partition`,
    /// done in turn, and in each row column `c` takes column `width - c` for
    /// `1 <= c < width / 2` and for `c > width - width / 2`; column 0 stays.
    /// Whatever `num_threads` is, the result is the same.
    pub fn flip_horizontal_cocurrently_memory_friendly(&mut self, num_threads: usize)
        requires
            old(self).wf(),
            1 <= num_threads,
        ensures
            final(self).wf(),
            old(self).same_frame(final(self)),
            final(self).pixels() == remap(
                old(self).pixels(),
                old(self).w(),
                old(self).ch(),
                inner_cols(old(self).w()),
            ),
    {
        let ghost d0 = self.pixels();
        let ghost w = self.w();
        let ghost h = self.h();
        let ghost ch = self.ch();
        let height = self.height as usize;
        let parts = partition(height, num_threads);
        proof {
            assert(moved(d0, d0, w, h, ch, |r: int, c: int| if r < 0 { inner_cols(w)(r, c) } else { (r, c) }));
        }
        let mut t: usize = 0;
        let mut next: usize = 0;
        while t < num_threads
            invariant
                self.wf(),
                old(self).same_frame(self),
                w == self.w(),
                h == self.h(),
                ch == self.ch(),
                d0 == old(self).pixels(),
                height == h,
                parts@.len() == num_threads,
                forall|i: int|
                    0 <= i < num_threads ==> (#[trigger] parts@[i]).0 == range_begin(height as int, num_threads as int, i)
                        && parts@[i].1 == range_end(height as int, num_threads as int, i) && parts@[i].0
                        <= parts@[i].1 <= height,
                t <= num_threads,
                next == (if t == 0 { 0 } else { range_end(height as int, num_threads as int, t - 1) }),
                next <= height,
                moved(self.pixels(), d0, w, h, ch, |r: int, c: int| if r < next { inner_cols(w)(r, c) } else { (r, c) }),
            decreases num_threads - t,
        {
            let (begin, end) = parts[t];
            proof {
                if t > 0 {
                    lemma_ranges_meet(height as int, num_threads as int, t - 1);
                } else {
                    lemma_first_range(height as int, num_threads as int);
                }
            }
            assert(begin == next);
            let mut row: usize = begin;
            while row < end
                invariant
                    self.wf(),
                    old(self).same_frame(self),
                    w == self.w(),
                    h == self.h(),
                    ch == self.ch(),
                    begin <= row <= end,
                    end <= h,
                    moved(self.pixels(), d0, w, h, ch, |r: int, c: int| if r < row { inner_cols(w)(r, c) } else { (r, c) }),
                decreases end - row,
            {
                let ghost cur = self.pixels();
                self.mirror_row_staged(row);
                proof {
                    let f = |r: int, c: int| if r < row { inner_cols(w)(r, c) } else { (r, c) };
                    let g = |r: int, c: int| if r == row { inner_cols(w)(r, c) } else { (r, c) };
                    lemma_moved_compose(d0, cur, self.pixels(), w, h, ch, f, g);
                    let fg = |r: int, c: int| f(g(r, c).0, g(r, c).1);
                    let f2 = |r: int, c: int| if r < row + 1 { inner_cols(w)(r, c) } else { (r, c) };
                    lemma_moved_ext(self.pixels(), d0, w, h, ch, fg, f2);
                }
                row = row + 1;
            }
            next = end;
            t = t + 1;
        }
        proof {
            let f = |r: int, c: int| if r < next { inner_cols(w)(r, c) } else { (r, c) };
            lemma_moved_ext(self.pixels(), d0, w, h, ch, f, inner_cols(w));
            lemma_moved_remap(self.pixels(), d0, w, h, ch, inner_cols(w));
        }
    }
}

} // verus!
