//! A box blur of radius 1 over a rectangle of a flat pixel buffer. A pixel
//! is one `u32`: red in the lowest byte, then green, blue and alpha.

use vstd::prelude::*;

verus! {

/// The byte of `pixel` that starts at bit `shift`.
pub open spec fn channel(pixel: u32, shift: u32) -> u32 {
    (pixel >> shift) & 0xFF
}

/// The column offset of tap `n` of the 3 x 3 window, taps counted row by row.
pub open spec fn tap_dx(n: int) -> int {
    n % 3 - 1
}

/// The row offset of tap `n`.
pub open spec fn tap_dy(n: int) -> int {
    n / 3 - 1
}

/// The window takes the neighbour at column `nx` of row `ny`: it lies
/// neither left of the first column nor right of the last, nor above the
/// first row.
pub open spec fn taken(nx: int, ny: int, width: int) -> bool {
    nx >= 0 && ny >= 0 && nx < width
}

/// The sum of one channel over the first `n` taps of the window round
/// `(x, y)` that are taken.
pub open spec fn window_sum(buf: Seq<u32>, x: int, y: int, width: int, shift: u32, n: int) -> int
    decreases n,
{
    if n <= 0 {
        0
    } else {
        let nx = x + tap_dx(n - 1);
        let ny = y + tap_dy(n - 1);
        window_sum(buf, x, y, width, shift, n - 1) + (if taken(nx, ny, width) {
            channel(buf[ny * width + nx], shift) as int
        } else {
            0
        })
    }
}

/// The number of the first `n` taps of the window round `(x, y)` that are
/// taken.
pub open spec fn window_count(x: int, y: int, width: int, n: int) -> int
    decreases n,
{
    if n <= 0 {
        0
    } else {
        window_count(x, y, width, n - 1) + (if taken(
            x + tap_dx(n - 1),
            y + tap_dy(n - 1),
            width,
        ) {
            1int
        } else {
            0int
        })
    }
}

/// The pixel with the given channels and full alpha.
pub open spec fn compose(r: u32, g: u32, b: u32) -> u32 {
    (r & 0xFF) | ((g & 0xFF) << 8) | ((b & 0xFF) << 16) | 0xFF000000
}

/// The blurred pixel at `(x, y)`: each colour channel is the mean, rounded
/// down, of that channel over the taps taken; alpha is full.
pub open spec fn blurred(buf: Seq<u32>, x: int, y: int, width: int) -> u32 {
    let count = window_count(x, y, width, 9);
    compose(
        (window_sum(buf, x, y, width, 0, 9) / count) as u32,
        (window_sum(buf, x, y, width, 8, 9) / count) as u32,
        (window_sum(buf, x, y, width, 16, 9) / count) as u32,
    )
}

/// The buffer after the pixels of row `y` from column `x0` up to, not
/// including, column `x` have been blurred from left to right, each from
/// the buffer as the pixels before it left it.
pub open spec fn blur_row(buf: Seq<u32>, x0: int, x: int, y: int, width: int) -> Seq<u32>
    decreases x - x0,
{
    if x <= x0 {
        buf
    } else {
        let before = blur_row(buf, x0, x - 1, y, width);
        before.update(y * width + (x - 1), blurred(before, x - 1, y, width))
    }
}

/// The buffer after the rows from `y0` up to, not including, `y` have been
/// blurred from top to bottom between the columns `x0` and `x1`.
pub open spec fn blur_rows(buf: Seq<u32>, x0: int, x1: int, y0: int, y: int, width: int) -> Seq<u32>
    decreases y - y0,
{
    if y <= y0 {
        buf
    } else {
        blur_row(blur_rows(buf, x0, x1, y0, y - 1, width), x0, x1, y - 1, width)
    }
}

/// The index of the first pixel of row `y`.
pub open spec fn row_start(y: int, width: int) -> int {
    y * width
}

/// `i` is the index of a pixel of the rectangle of the columns `x0..x1`
/// and the rows `y0..y1`.
pub open spec fn in_rectangle(i: int, x0: int, x1: int, y0: int, y1: int, width: int) -> bool {
    exists|y: int|
        y0 <= y < y1 && #[trigger] row_start(y, width) + x0 <= i && i < row_start(y, width) + x1
}

/// Every pixel of the buffer has the byte at `shift` between `lo` and `hi`.
pub open spec fn all_within(buf: Seq<u32>, shift: u32, lo: u32, hi: u32) -> bool {
    forall|i: int| 0 <= i < buf.len() ==> lo <= channel(#[trigger] buf[i], shift) <= hi
}

/// Every pixel of the buffer has the colour `v` in its three low bytes.
pub open spec fn solid(buf: Seq<u32>, v: u32) -> bool {
    forall|i: int| 0 <= i < buf.len() ==> #[trigger] buf[i] & 0x00FF_FFFF == v
}

/// `shift` is where one of the three colour bytes starts.
pub open spec fn colour_shift(shift: u32) -> bool {
    shift == 0 || shift == 8 || shift == 16
}

proof fn lemma_channel_bound(pixel: u32, shift: u32)
    ensures
        channel(pixel, shift) <= 255,
{
    assert((pixel >> shift) & 0xFF <= 255) by (bit_vector);
}

/// The bytes of a pixel put together from three channels.
proof fn lemma_compose(r: u32, g: u32, b: u32)
    requires
        r <= 255,
        g <= 255,
        b <= 255,
    ensures
        channel(compose(r, g, b), 0) == r,
        channel(compose(r, g, b), 8) == g,
        channel(compose(r, g, b), 16) == b,
        channel(compose(r, g, b), 24) == 0xFF,
{
    assert(r <= 255 && g <= 255 && b <= 255 ==> ((((r & 0xFF) | ((g & 0xFF) << 8) | ((b & 0xFF)
        << 16) | 0xFF000000) >> 0u32) & 0xFF == r && (((r & 0xFF) | ((g & 0xFF) << 8) | ((b & 0xFF)
        << 16) | 0xFF000000) >> 8u32) & 0xFF == g && (((r & 0xFF) | ((g & 0xFF) << 8) | ((b & 0xFF)
        << 16) | 0xFF000000) >> 16u32) & 0xFF == b && (((r & 0xFF) | ((g & 0xFF) << 8) | ((b
        & 0xFF) << 16) | 0xFF000000) >> 24u32) & 0xFF == 0xFF)) by (bit_vector);
}

/// A pixel with full alpha whose colour bytes are those of `v`.
proof fn lemma_same_colour(p: u32, v: u32, q: u32)
    requires
        q & 0x00FF_FFFF == v,
        channel(p, 0) == channel(q, 0),
        channel(p, 8) == channel(q, 8),
        channel(p, 16) == channel(q, 16),
        channel(p, 24) == 0xFF,
    ensures
        p == v | 0xFF000000,
{
    assert(q & 0x00FF_FFFF == v && (p >> 0u32) & 0xFF == (q >> 0u32) & 0xFF && (p >> 8u32) & 0xFF
        == (q >> 8u32) & 0xFF && (p >> 16u32) & 0xFF == (q >> 16u32) & 0xFF && (p >> 24u32) & 0xFF
        == 0xFF ==> p == v | 0xFF000000) by (bit_vector);
}

/// Where every pixel has a byte between `lo` and `hi`, the sum of that byte
/// over the taps taken lies between `lo` and `hi` times their number.
proof fn lemma_window_within(
    buf: Seq<u32>,
    x: int,
    y: int,
    width: int,
    shift: u32,
    n: int,
    lo: u32,
    hi: u32,
)
    requires
        all_within(buf, shift, lo, hi),
        0 <= n <= 9,
        0 <= x < width,
        0 <= y,
        (y + 1) * width + (if x + 1 < width {
            x + 1
        } else {
            width - 1
        }) < buf.len(),
    ensures
        0 <= window_count(x, y, width, n) <= n,
        lo * window_count(x, y, width, n) <= window_sum(buf, x, y, width, shift, n),
        window_sum(buf, x, y, width, shift, n) <= hi * window_count(x, y, width, n),
    decreases n,
{
    if n > 0 {
        lemma_window_within(buf, x, y, width, shift, n - 1, lo, hi);
        let nx = x + tap_dx(n - 1);
        let ny = y + tap_dy(n - 1);
        let c = window_count(x, y, width, n - 1);
        if taken(nx, ny, width) {
            assert(0 <= ny * width + nx < buf.len()) by (nonlinear_arith)
                requires
                    0 <= ny <= y + 1,
                    0 <= nx < width,
                    nx <= x + 1,
                    (y + 1) * width + (if x + 1 < width {
                        x + 1
                    } else {
                        width - 1
                    }) < buf.len(),
            ;
            assert(lo * (c + 1) == lo * c + lo && hi * (c + 1) == hi * c + hi)
                by (nonlinear_arith);
        }
    }
}

/// Blurs the pixels of the rectangle of columns `x0..x1` and rows `y0..y1`
/// in place, row by row and from left to right. The new value of a pixel
/// is taken from the 3 x 3 window round it as the buffer stands when its
/// turn comes. The window leaves out what lies left of the first column,
/// right of the last or above the first row, but not what lies below the
/// rectangle: the buffer has to reach down to the pixel below and to the
/// right of the last pixel of the rectangle.
pub fn fast_blur(buffer: &mut [u32], x0: usize, y0: usize, x1: usize, y1: usize, width: usize)
    requires
        x0 < x1 && y0 < y1 ==> x1 <= width && y1 * width + (if x1 < width {
            x1 as int
        } else {
            width - 1
        }) < old(buffer)@.len(),
    ensures
        final(buffer)@ == blur_rows(
            old(buffer)@,
            x0 as int,
            x1 as int,
            y0 as int,
            y1 as int,
            width as int,
        ),
        final(buffer)@.len() == old(buffer)@.len(),
        forall|i: int|
            0 <= i < old(buffer)@.len() && !in_rectangle(
                i,
                x0 as int,
                x1 as int,
                y0 as int,
                y1 as int,
                width as int,
            ) ==> #[trigger] final(buffer)@[i] == old(buffer)@[i],
        forall|i: int|
            0 <= i < old(buffer)@.len() && in_rectangle(
                i,
                x0 as int,
                x1 as int,
                y0 as int,
                y1 as int,
                width as int,
            ) ==> channel(#[trigger] final(buffer)@[i], 24) == 0xFF,
        forall|shift: u32, lo: u32, hi: u32|
            colour_shift(shift) && #[trigger] all_within(old(buffer)@, shift, lo, hi)
                ==> all_within(final(buffer)@, shift, lo, hi),
        forall|v: u32, i: int|
            #[trigger] solid(old(buffer)@, v) && 0 <= i < old(buffer)@.len() && in_rectangle(
                i,
                x0 as int,
                x1 as int,
                y0 as int,
                y1 as int,
                width as int,
            ) ==> #[trigger] final(buffer)@[i] == v | 0xFF000000,
{
    if x0 >= x1 || y0 >= y1 {
        proof {
            lemma_blur_nothing(buffer@, x0 as int, x1 as int, y0 as int, y1 as int, width as int);
        }
        return ;
    }
    let len = buffer.len();
    let ghost reach: int = if x1 < width {
        x1 as int
    } else {
        width - 1
    };
    assert(width < len && y1 < len) by (nonlinear_arith)
        requires
            0 <= x0 < x1 <= width,
            0 <= y0 < y1,
            0 <= reach,
            y1 * width + reach < len,
    ;
    let mut y: usize = y0;
    while y < y1
        invariant
            x0 < x1 <= width,
            y0 <= y <= y1,
            width < len,
            y1 < len,
            buffer@.len() == len,
            len == old(buffer)@.len(),
            reach == (if x1 < width {
                x1 as int
            } else {
                width - 1
            }),
            y1 * width + reach < len,
            buffer@ == blur_rows(
                old(buffer)@,
                x0 as int,
                x1 as int,
                y0 as int,
                y as int,
                width as int,
            ),
            forall|i: int|
                0 <= i < len && !in_rectangle(
                    i,
                    x0 as int,
                    x1 as int,
                    y0 as int,
                    y as int,
                    width as int,
                ) ==> #[trigger] buffer@[i] == old(buffer)@[i],
            forall|i: int|
                0 <= i < len && in_rectangle(
                    i,
                    x0 as int,
                    x1 as int,
                    y0 as int,
                    y as int,
                    width as int,
                ) ==> channel(#[trigger] buffer@[i], 24) == 0xFF,
            forall|shift: u32, lo: u32, hi: u32|
                colour_shift(shift) && #[trigger] all_within(old(buffer)@, shift, lo, hi)
                    ==> all_within(buffer@, shift, lo, hi),
        decreases y1 - y,
    {
        let ghost row_begin = buffer@;
        let mut x: usize = x0;
        while x < x1
            invariant
                x0 <= x <= x1,
                x1 <= width,
                y0 <= y < y1,
                width < len,
                y1 < len,
                buffer@.len() == len,
                len == old(buffer)@.len(),
                reach == (if x1 < width {
                    x1 as int
                } else {
                    width - 1
                }),
                y1 * width + reach < len,
                buffer@ == blur_row(row_begin, x0 as int, x as int, y as int, width as int),
                forall|i: int|
                    0 <= i < len && !in_rectangle(
                        i,
                        x0 as int,
                        x1 as int,
                        y0 as int,
                        y as int,
                        width as int,
                    ) && !(row_start(y as int, width as int) + x0 <= i < row_start(
                        y as int,
                        width as int,
                    ) + x) ==> #[trigger] buffer@[i] == old(buffer)@[i],
                forall|i: int|
                    0 <= i < len && (in_rectangle(
                        i,
                        x0 as int,
                        x1 as int,
                        y0 as int,
                        y as int,
                        width as int,
                    ) || row_start(y as int, width as int) + x0 <= i < row_start(
                        y as int,
                        width as int,
                    ) + x) ==> channel(#[trigger] buffer@[i], 24) == 0xFF,
                forall|shift: u32, lo: u32, hi: u32|
                    colour_shift(shift) && #[trigger] all_within(old(buffer)@, shift, lo, hi)
                        ==> all_within(buffer@, shift, lo, hi),
            decreases x1 - x,
        {
            let ghost buf = buffer@;
            let mut sum_r: u32 = 0;
            let mut sum_g: u32 = 0;
            let mut sum_b: u32 = 0;
            let mut count: u32 = 0;
            let mut n: u32 = 0;
            while n < 9
                invariant
                    n <= 9,
                    x < x1 <= width,
                    y < y1,
                    width < len,
                    y1 < len,
                    buffer@ == buf,
                    buf.len() == len,
                    reach == (if x1 < width {
                        x1 as int
                    } else {
                        width - 1
                    }),
                    y1 * width + reach < len,
                    sum_r == window_sum(buf, x as int, y as int, width as int, 0, n as int),
                    sum_g == window_sum(buf, x as int, y as int, width as int, 8, n as int),
                    sum_b == window_sum(buf, x as int, y as int, width as int, 16, n as int),
                    count == window_count(x as int, y as int, width as int, n as int),
                    sum_r <= 255 * count,
                    sum_g <= 255 * count,
                    sum_b <= 255 * count,
                    count <= n,
                    n >= 5 ==> count >= 1,
                decreases 9 - n,
            {
                let dx: usize = (n % 3) as usize;
                let dy: usize = (n / 3) as usize;
                if x + dx >= 1 && y + dy >= 1 && x + dx - 1 < width {
                    let nx: usize = x + dx - 1;
                    let ny: usize = y + dy - 1;
                    assert(ny * width + nx < len) by (nonlinear_arith)
                        requires
                            0 <= ny <= y1,
                            0 <= nx <= reach,
                            0 <= width,
                            y1 * width + reach < len,
                    ;
                    let pixel = buffer[ny * width + nx];
                    proof {
                        lemma_channel_bound(pixel, 0);
                        lemma_channel_bound(pixel, 8);
                        lemma_channel_bound(pixel, 16);
                        assert(pixel & 0xFF == (pixel >> 0u32) & 0xFF) by (bit_vector);
                    }
                    sum_r += (pixel & 0xFF) as u32;
                    sum_g += ((pixel >> 8) & 0xFF) as u32;
                    sum_b += ((pixel >> 16) & 0xFF) as u32;
                    count += 1;
                }
                n += 1;
            }
            let r = (sum_r / count) as u32 & 0xFF;
            let g = (sum_g / count) as u32 & 0xFF;
            let b = (sum_b / count) as u32 & 0xFF;
            assert(y * width + x < len) by (nonlinear_arith)
                requires
                    0 <= y < y1,
                    0 <= x < x1,
                    x1 <= width,
                    0 <= reach,
                    reach == (if x1 < width {
                        x1 as int
                    } else {
                        width - 1
                    }),
                    y1 * width + reach < len,
            ;
            let fresh: u32 = r | (g << 8) | (b << 16) | 0xFF000000;
            proof {
                let (mr, mg, mb) = (sum_r / count, sum_g / count, sum_b / count);
                assert(mr <= 255 && mg <= 255 && mb <= 255) by (nonlinear_arith)
                    requires
                        count >= 1,
                        sum_r <= 255 * count,
                        sum_g <= 255 * count,
                        sum_b <= 255 * count,
                        mr == sum_r / count,
                        mg == sum_g / count,
                        mb == sum_b / count,
                ;
                lemma_compose(mr, mg, mb);
                assert(r == mr & 0xFF && g == mg & 0xFF && b == mb & 0xFF);
                assert(fresh == blurred(buf, x as int, y as int, width as int));
                assert((y + 1) * width + (if x + 1 < width {
                    x + 1
                } else {
                    width - 1
                }) < len) by (nonlinear_arith)
                    requires
                        0 <= y < y1,
                        0 <= x < x1,
                        x1 <= width,
                        reach == (if x1 < width {
                            x1 as int
                        } else {
                            width - 1
                        }),
                        y1 * width + reach < len,
                ;
                assert forall|shift: u32, lo: u32, hi: u32|
                    colour_shift(shift) && #[trigger] all_within(
                        old(buffer)@,
                        shift,
                        lo,
                        hi,
                    ) implies lo <= channel(fresh, shift) <= hi by {
                    assert(all_within(buf, shift, lo, hi));
                    lemma_window_within(buf, x as int, y as int, width as int, shift, 9, lo, hi);
                    let c = window_count(x as int, y as int, width as int, 9);
                    let s = window_sum(buf, x as int, y as int, width as int, shift, 9);
                    assert(lo <= s / c <= hi) by (nonlinear_arith)
                        requires
                            c >= 1,
                            lo * c <= s,
                            s <= hi * c,
                    ;
                }
            }
            buffer[y * width + x] = fresh;
            proof {
                assert forall|shift: u32, lo: u32, hi: u32|
                    colour_shift(shift) && #[trigger] all_within(
                        old(buffer)@,
                        shift,
                        lo,
                        hi,
                    ) implies all_within(buffer@, shift, lo, hi) by {
                    assert(all_within(buf, shift, lo, hi));
                    assert forall|i: int| 0 <= i < buffer@.len() implies lo <= channel(
                        #[trigger] buffer@[i],
                        shift,
                    ) <= hi by {
                        if i != y * width + x {
                            assert(buffer@[i] == buf[i]);
                        }
                    }
                }
            }
            x += 1;
        }
        proof {
            assert forall|i: int|
                0 <= i < len implies (in_rectangle(
                i,
                x0 as int,
                x1 as int,
                y0 as int,
                y + 1,
                width as int,
            ) <==> (in_rectangle(i, x0 as int, x1 as int, y0 as int, y as int, width as int)
                || row_start(y as int, width as int) + x0 <= i < row_start(
                y as int,
                width as int,
            ) + x1)) by {
                if in_rectangle(i, x0 as int, x1 as int, y0 as int, y as int, width as int) {
                    let w = choose|w: int|
                        y0 <= w < y && #[trigger] row_start(w, width as int) + x0 <= i && i
                            < row_start(w, width as int) + x1;
                    assert(y0 <= w < y + 1);
                }
                if row_start(y as int, width as int) + x0 <= i < row_start(
                    y as int,
                    width as int,
                ) + x1 {
                    assert(y0 <= y < y + 1);
                }
            }
        }
        y += 1;
    }
    proof {
        assert forall|v: u32, i: int|
            #[trigger] solid(old(buffer)@, v) && 0 <= i < len && in_rectangle(
                i,
                x0 as int,
                x1 as int,
                y0 as int,
                y1 as int,
                width as int,
            ) implies #[trigger] buffer@[i] == v | 0xFF000000 by {
            let q = old(buffer)@[0];
            let p = buffer@[i];
            lemma_channel_bound(q, 0);
            lemma_channel_bound(q, 8);
            lemma_channel_bound(q, 16);
            lemma_solid_within(old(buffer)@, v, q, 0);
            lemma_solid_within(old(buffer)@, v, q, 8);
            lemma_solid_within(old(buffer)@, v, q, 16);
            assert(all_within(buffer@, 0, channel(q, 0), channel(q, 0)));
            assert(all_within(buffer@, 8, channel(q, 8), channel(q, 8)));
            assert(all_within(buffer@, 16, channel(q, 16), channel(q, 16)));
            lemma_same_colour(p, v, q);
        }
    }
}

/// In a buffer of one colour every pixel has the colour bytes of any one
/// of its pixels.
proof fn lemma_solid_within(buf: Seq<u32>, v: u32, q: u32, shift: u32)
    requires
        solid(buf, v),
        q & 0x00FF_FFFF == v,
        colour_shift(shift),
    ensures
        all_within(buf, shift, channel(q, shift), channel(q, shift)),
{
    assert forall|i: int| 0 <= i < buf.len() implies channel(#[trigger] buf[i], shift) == channel(
        q,
        shift,
    ) by {
        let p = buf[i];
        assert(p & 0x00FF_FFFF == q & 0x00FF_FFFF && (shift == 0 || shift == 8 || shift == 16)
            ==> (p >> shift) & 0xFF == (q >> shift) & 0xFF) by (bit_vector);
    }
}

/// An empty rectangle leaves the buffer as it is.
proof fn lemma_blur_nothing(buf: Seq<u32>, x0: int, x1: int, y0: int, y1: int, width: int)
    requires
        x0 >= x1 || y0 >= y1,
    ensures
        blur_rows(buf, x0, x1, y0, y1, width) == buf,
    decreases y1 - y0,
{
    if y1 > y0 {
        lemma_blur_nothing(buf, x0, x1, y0, y1 - 1, width);
    }
}

} // verus!
