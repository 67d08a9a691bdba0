//! Work on raw frames: four bytes to the pixel, rows of `width` pixels with
//! no gap between them.

use crate::types::Rect;
use vstd::prelude::*;

verus! {

/// Index of channel `c` of the pixel at column `x`, row `y`.
pub open spec fn offset(width: u32, x: int, y: int, c: int) -> int {
    (y * width + x) * 4 + c
}

/// Length in bytes of a frame of `width` by `height` pixels.
pub open spec fn frame_len(width: u32, height: u32) -> int {
    (width * height) * 4
}

/// The rectangle lies within a frame of `width` by `height` pixels.
pub open spec fn within(d: Rect, width: u32, height: u32) -> bool {
    &&& 0 <= d.x
    &&& 0 <= d.y
    &&& d.right() <= width
    &&& d.bottom() <= height
}

/// `after` is `before` with the pixels of `d` taken from `source`.
pub open spec fn rows_copied(
    before: Seq<u8>,
    after: Seq<u8>,
    source: Seq<u8>,
    width: u32,
    height: u32,
    d: Rect,
) -> bool {
    &&& after.len() == before.len()
    &&& forall|x: int, y: int, c: int|
        0 <= x < width && 0 <= y < height && 0 <= c < 4 ==> after[#[trigger] offset(
            width,
            x,
            y,
            c,
        )] == if d.has_pixel(x, y) {
            source[offset(width, x, y, c)]
        } else {
            before[offset(width, x, y, c)]
        }
}

/// The channel that trades places with channel `c`: the first with the
/// third, the others with themselves.
pub open spec fn swapped_channel(c: int) -> int {
    if c == 0 {
        2
    } else if c == 2 {
        0
    } else {
        c
    }
}

/// `after` is `before` with the first and third byte of every pixel of `d`
/// exchanged.
pub open spec fn channels_swapped(
    before: Seq<u8>,
    after: Seq<u8>,
    width: u32,
    height: u32,
    d: Rect,
) -> bool {
    &&& after.len() == before.len()
    &&& forall|x: int, y: int, c: int|
        0 <= x < width && 0 <= y < height && 0 <= c < 4 ==> after[#[trigger] offset(
            width,
            x,
            y,
            c,
        )] == if d.has_pixel(x, y) {
            before[offset(width, x, y, swapped_channel(c))]
        } else {
            before[offset(width, x, y, c)]
        }
}

/// Every channel of a pixel of the frame has its index within the frame.
pub proof fn lemma_offset_bounds(width: u32, height: u32, x: int, y: int)
    requires
        0 <= x < width,
        0 <= y < height,
    ensures
        0 <= y * width,
        0 <= offset(width, x, y, 0),
        offset(width, x, y, 3) < frame_len(width, height),
{
    assert(0 <= y * width && (y * width + x) < width * height) by (nonlinear_arith)
        requires
            0 <= x < width,
            0 <= y < height,
    ;
}

/// Two different pixels share no byte.
pub proof fn lemma_offset_distinct(width: u32, x1: int, y1: int, x2: int, y2: int)
    requires
        0 <= x1 < width,
        0 <= x2 < width,
        x1 != x2 || y1 != y2,
    ensures
        offset(width, x1, y1, 3) < offset(width, x2, y2, 0) || offset(width, x2, y2, 3) < offset(
            width,
            x1,
            y1,
            0,
        ),
{
    assert(y1 * width + x1 != y2 * width + x2) by (nonlinear_arith)
        requires
            0 <= x1 < width,
            0 <= x2 < width,
            x1 != x2 || y1 != y2,
    ;
}

/// Every index of a frame is a channel of one of its pixels.
pub proof fn lemma_index_is_offset(width: u32, height: u32, i: int) -> (p: (int, int, int))
    requires
        0 <= i < frame_len(width, height),
    ensures
        0 <= p.0 < width,
        0 <= p.1 < height,
        0 <= p.2 < 4,
        i == offset(width, p.0, p.1, p.2),
{
    let n = i / 4;
    let c = i % 4;
    let w = width as int;
    assert(w > 0) by (nonlinear_arith)
        requires
            0 <= i < (w * height) * 4,
            w >= 0,
    ;
    let y = n / w;
    let x = n % w;
    vstd::arithmetic::div_mod::lemma_fundamental_div_mod(n, w);
    vstd::arithmetic::div_mod::lemma_mod_bound(n, w);
    assert(n == y * w + x) by (nonlinear_arith)
        requires
            n == w * y + x,
    ;
    assert(0 <= y < height) by (nonlinear_arith)
        requires
            n == y * w + x,
            0 <= x < w,
            0 <= n < w * height,
    ;
    (x, y, c)
}

/// Copies the pixels of `dirty` from `source` into `buffer`, both frames of
/// `width` by `height` pixels; no other byte of `buffer` changes.
pub fn copy_rows(buffer: &mut [u8], source: &[u8], width: u32, height: u32, dirty: &Rect)
    requires
        old(buffer)@.len() == frame_len(width, height),
        source@.len() == frame_len(width, height),
        within(*dirty, width, height),
    ensures
        rows_copied(old(buffer)@, final(buffer)@, source@, width, height, *dirty),
{
    let ghost before = buffer@;
    let total: usize = buffer.len();
    let x_start: u32 = dirty.x as u32;
    let x_end: u32 = x_start + dirty.w;
    let y_end: u32 = dirty.y as u32 + dirty.h;
    let mut y: u32 = dirty.y as u32;
    while y < y_end
        invariant
            dirty.y <= y <= y_end,
            y_end == dirty.bottom(),
            x_start == dirty.x,
            x_end == dirty.right(),
            within(*dirty, width, height),
            total == frame_len(width, height),
            buffer@.len() == frame_len(width, height),
            before.len() == frame_len(width, height),
            source@.len() == frame_len(width, height),
            forall|px: int, py: int, c: int|
                0 <= px < width && 0 <= py < height && 0 <= c < 4 ==> buffer@[#[trigger] offset(
                    width,
                    px,
                    py,
                    c,
                )] == if dirty.has_pixel(px, py) && py < y {
                    source@[offset(width, px, py, c)]
                } else {
                    before[offset(width, px, py, c)]
                },
        decreases y_end - y,
    {
        let mut x: u32 = x_start;
        while x < x_end
            invariant
                dirty.y <= y < y_end,
                y_end == dirty.bottom(),
                x_start == dirty.x,
                x_start <= x <= x_end,
                x_end == dirty.right(),
                within(*dirty, width, height),
                total == frame_len(width, height),
                buffer@.len() == frame_len(width, height),
                before.len() == frame_len(width, height),
                source@.len() == frame_len(width, height),
                forall|px: int, py: int, c: int|
                    0 <= px < width && 0 <= py < height && 0 <= c < 4
                        ==> buffer@[#[trigger] offset(width, px, py, c)] == if dirty.has_pixel(
                        px,
                        py,
                    ) && (py < y || (py == y && px < x)) {
                        source@[offset(width, px, py, c)]
                    } else {
                        before[offset(width, px, py, c)]
                    },
            decreases x_end - x,
        {
            proof {
                lemma_offset_bounds(width, height, x as int, y as int);
            }
            let base: usize = (y as usize * width as usize + x as usize) * 4;
            let ghost prev = buffer@;
            buffer[base] = source[base];
            buffer[base + 1] = source[base + 1];
            buffer[base + 2] = source[base + 2];
            buffer[base + 3] = source[base + 3];
            proof {
                assert forall|px: int, py: int, c: int|
                    0 <= px < width && 0 <= py < height && 0 <= c < 4 implies buffer@[#[trigger] offset(
                    width,
                    px,
                    py,
                    c,
                )] == if dirty.has_pixel(px, py) && (py < y || (py == y && px < x + 1)) {
                    source@[offset(width, px, py, c)]
                } else {
                    before[offset(width, px, py, c)]
                } by {
                    lemma_offset_bounds(width, height, px, py);
                    if px != x || py != y {
                        lemma_offset_distinct(width, px, py, x as int, y as int);
                        assert(buffer@[offset(width, px, py, c)] == prev[offset(width, px, py, c)]);
                    }
                }
            }
            x = x + 1;
        }
        y = y + 1;
    }
}

/// Exchanges the first and third byte of every pixel of `dirty` in a frame
/// of `width` by `height` pixels; no other byte changes.
pub fn swap_red_blue(buffer: &mut [u8], width: u32, height: u32, dirty: &Rect)
    requires
        old(buffer)@.len() == frame_len(width, height),
        within(*dirty, width, height),
    ensures
        channels_swapped(old(buffer)@, final(buffer)@, width, height, *dirty),
{
    let ghost before = buffer@;
    let total: usize = buffer.len();
    let x_start: u32 = dirty.x as u32;
    let x_end: u32 = x_start + dirty.w;
    let y_end: u32 = dirty.y as u32 + dirty.h;
    let mut y: u32 = dirty.y as u32;
    while y < y_end
        invariant
            dirty.y <= y <= y_end,
            y_end == dirty.bottom(),
            x_start == dirty.x,
            x_end == dirty.right(),
            within(*dirty, width, height),
            total == frame_len(width, height),
            buffer@.len() == frame_len(width, height),
            before.len() == frame_len(width, height),
            forall|px: int, py: int, c: int|
                0 <= px < width && 0 <= py < height && 0 <= c < 4 ==> buffer@[#[trigger] offset(
                    width,
                    px,
                    py,
                    c,
                )] == if dirty.has_pixel(px, py) && py < y {
                    before[offset(width, px, py, swapped_channel(c))]
                } else {
                    before[offset(width, px, py, c)]
                },
        decreases y_end - y,
    {
        let mut x: u32 = x_start;
        while x < x_end
            invariant
                dirty.y <= y < y_end,
                y_end == dirty.bottom(),
                x_start == dirty.x,
                x_start <= x <= x_end,
                x_end == dirty.right(),
                within(*dirty, width, height),
                total == frame_len(width, height),
                buffer@.len() == frame_len(width, height),
                before.len() == frame_len(width, height),
                forall|px: int, py: int, c: int|
                    0 <= px < width && 0 <= py < height && 0 <= c < 4
                        ==> buffer@[#[trigger] offset(width, px, py, c)] == if dirty.has_pixel(
                        px,
                        py,
                    ) && (py < y || (py == y && px < x)) {
                        before[offset(width, px, py, swapped_channel(c))]
                    } else {
                        before[offset(width, px, py, c)]
                    },
            decreases x_end - x,
        {
            proof {
                lemma_offset_bounds(width, height, x as int, y as int);
            }
            let base: usize = (y as usize * width as usize + x as usize) * 4;
            let ghost prev = buffer@;
            assert(prev[base as int] == before[offset(width, x as int, y as int, 0)]);
            assert(prev[base + 1] == before[offset(width, x as int, y as int, 1)]);
            assert(prev[base + 2] == before[offset(width, x as int, y as int, 2)]);
            assert(prev[base + 3] == before[offset(width, x as int, y as int, 3)]);
            let first: u8 = buffer[base];
            let third: u8 = buffer[base + 2];
            buffer[base] = third;
            buffer[base + 2] = first;
            proof {
                assert forall|px: int, py: int, c: int|
                    0 <= px < width && 0 <= py < height && 0 <= c < 4 implies buffer@[#[trigger] offset(
                    width,
                    px,
                    py,
                    c,
                )] == if dirty.has_pixel(px, py) && (py < y || (py == y && px < x + 1)) {
                    before[offset(width, px, py, swapped_channel(c))]
                } else {
                    before[offset(width, px, py, c)]
                } by {
                    lemma_offset_bounds(width, height, px, py);
                    if px != x || py != y {
                        lemma_offset_distinct(width, px, py, x as int, y as int);
                        assert(buffer@[offset(width, px, py, c)] == prev[offset(width, px, py, c)]);
                    }
                }
            }
            x = x + 1;
        }
        y = y + 1;
    }
}

/// Swapping the channels of the same rectangle twice gives the frame back.
pub proof fn lemma_swap_twice(
    a: Seq<u8>,
    b: Seq<u8>,
    c: Seq<u8>,
    width: u32,
    height: u32,
    d: Rect,
)
    requires
        a.len() == frame_len(width, height),
        channels_swapped(a, b, width, height, d),
        channels_swapped(b, c, width, height, d),
    ensures
        c == a,
{
    assert forall|i: int| 0 <= i < a.len() implies c[i] == a[i] by {
        let p = lemma_index_is_offset(width, height, i);
        let s = swapped_channel(p.2);
        assert(b[offset(width, p.0, p.1, s)] == if d.has_pixel(p.0, p.1) {
            a[offset(width, p.0, p.1, swapped_channel(s))]
        } else {
            a[offset(width, p.0, p.1, s)]
        });
        assert(c[offset(width, p.0, p.1, p.2)] == if d.has_pixel(p.0, p.1) {
            b[offset(width, p.0, p.1, s)]
        } else {
            b[offset(width, p.0, p.1, p.2)]
        });
    }
    assert(c =~= a);
}

/// A swap over a rectangle changes no byte outside it.
pub proof fn lemma_swap_keeps_outside(
    a: Seq<u8>,
    b: Seq<u8>,
    width: u32,
    height: u32,
    d: Rect,
    x: int,
    y: int,
    c: int,
)
    requires
        channels_swapped(a, b, width, height, d),
        0 <= x < width,
        0 <= y < height,
        0 <= c < 4,
        !d.has_pixel(x, y),
    ensures
        b[offset(width, x, y, c)] == a[offset(width, x, y, c)],
{
}

} // verus!
