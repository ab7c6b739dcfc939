use vstd::prelude::*;
use crate::error::KernelError;
use crate::region::{span_end, span_fits};

verus! {

/// An RGB color, as three consecutive bytes of the buffer hold it.
#[derive(Clone, Copy, Debug, PartialEq, Eq, Structural)]
pub struct Rgb {
    pub r: u8,
    pub g: u8,
    pub b: u8,
}

/// The color held by the three bytes of `buf` that start at `at`.
pub open spec fn color_at(buf: Seq<u8>, at: int) -> Rgb {
    Rgb { r: buf[at], g: buf[at + 1], b: buf[at + 2] }
}

/// The color of pixel `i`. Pixels are RGBA quadruples that start at offset 0.
pub open spec fn pixel_color(buf: Seq<u8>, i: int) -> Rgb {
    color_at(buf, 4 * i)
}

/// Entry `j` of the palette of RGB triples that starts at `palette_offset`.
pub open spec fn palette_color(buf: Seq<u8>, palette_offset: int, j: int) -> Rgb {
    color_at(buf, palette_offset + 3 * j)
}

/// Squared Euclidean distance between two colors in RGB space.
pub open spec fn distance_sq(a: Rgb, b: Rgb) -> int {
    (a.r - b.r) * (a.r - b.r) + (a.g - b.g) * (a.g - b.g) + (a.b - b.b) * (a.b - b.b)
}

/// Entry `k` is the palette's answer for `target`: no entry is closer, and
/// every entry before it is strictly farther, so that among equally close
/// entries the lowest index wins.
pub open spec fn is_nearest(
    buf: Seq<u8>,
    palette_offset: int,
    palette_size: int,
    target: Rgb,
    k: int,
) -> bool {
    &&& 0 <= k < palette_size
    &&& forall|j: int|
        0 <= j < palette_size ==> distance_sq(target, palette_color(buf, palette_offset, k))
            <= distance_sq(target, #[trigger] palette_color(buf, palette_offset, j))
    &&& forall|j: int|
        0 <= j < k ==> distance_sq(target, palette_color(buf, palette_offset, k)) < distance_sq(
            target,
            #[trigger] palette_color(buf, palette_offset, j),
        )
}

/// The index of the palette entry chosen for `target` (meaningful for a
/// palette with at least one entry).
pub open spec fn nearest_index(
    buf: Seq<u8>,
    palette_offset: int,
    palette_size: int,
    target: Rgb,
) -> int {
    choose|k: int| is_nearest(buf, palette_offset, palette_size, target, k)
}

/// The color that replaces `target`: the chosen palette entry, or `target`
/// itself where the palette is empty.
pub open spec fn nearest_color(
    buf: Seq<u8>,
    palette_offset: int,
    palette_size: int,
    target: Rgb,
) -> Rgb {
    if palette_size <= 0 {
        target
    } else {
        palette_color(buf, palette_offset, nearest_index(buf, palette_offset, palette_size, target))
    }
}

/// The buffer after pixel `i` alone has been quantised: its three color bytes
/// are replaced, its alpha byte and every other byte stay.
pub open spec fn quantize_pixel(
    buf: Seq<u8>,
    i: int,
    palette_offset: int,
    palette_size: int,
) -> Seq<u8> {
    let c = nearest_color(buf, palette_offset, palette_size, pixel_color(buf, i));
    buf.update(4 * i, c.r).update(4 * i + 1, c.g).update(4 * i + 2, c.b)
}

/// The buffer after the first `n` pixels have been quantised in order, each
/// against the palette as the buffer holds it at that moment.
pub open spec fn quantized(buf: Seq<u8>, n: int, palette_offset: int, palette_size: int) -> Seq<
    u8,
>
    decreases n,
{
    if n <= 0 {
        buf
    } else {
        quantize_pixel(
            quantized(buf, n - 1, palette_offset, palette_size),
            n - 1,
            palette_offset,
            palette_size,
        )
    }
}

/// Both the pixel region and the palette lie inside a buffer of `len` bytes.
pub open spec fn quantize_fits(
    len: int,
    pixel_count: int,
    palette_offset: int,
    palette_size: int,
) -> bool {
    span_fits(0, pixel_count, 4, len) && span_fits(palette_offset, palette_size, 3, len)
}

/// At most one entry answers for a target.
pub proof fn lemma_nearest_unique(
    buf: Seq<u8>,
    palette_offset: int,
    palette_size: int,
    target: Rgb,
    k1: int,
    k2: int,
)
    requires
        is_nearest(buf, palette_offset, palette_size, target, k1),
        is_nearest(buf, palette_offset, palette_size, target, k2),
    ensures
        k1 == k2,
{
    if k1 < k2 {
        assert(distance_sq(target, palette_color(buf, palette_offset, k2)) < distance_sq(
            target,
            palette_color(buf, palette_offset, k1),
        ));
    } else if k2 < k1 {
        assert(distance_sq(target, palette_color(buf, palette_offset, k1)) < distance_sq(
            target,
            palette_color(buf, palette_offset, k2),
        ));
    }
}

/// Every palette with at least one entry has an answer for every target.
pub proof fn lemma_nearest_exists(
    buf: Seq<u8>,
    palette_offset: int,
    palette_size: int,
    target: Rgb,
) -> (k: int)
    requires
        palette_size > 0,
    ensures
        is_nearest(buf, palette_offset, palette_size, target, k),
        k == nearest_index(buf, palette_offset, palette_size, target),
    decreases palette_size,
{
    let k = if palette_size == 1 {
        0
    } else {
        let prev = lemma_nearest_exists(buf, palette_offset, palette_size - 1, target);
        let last = palette_size - 1;
        if distance_sq(target, palette_color(buf, palette_offset, last)) < distance_sq(
            target,
            palette_color(buf, palette_offset, prev),
        ) {
            last
        } else {
            prev
        }
    };
    assert(is_nearest(buf, palette_offset, palette_size, target, k));
    lemma_nearest_unique(
        buf,
        palette_offset,
        palette_size,
        target,
        k,
        nearest_index(buf, palette_offset, palette_size, target),
    );
    k
}

/// The chosen color depends on the palette's bytes alone: two buffers that
/// hold the same palette choose the same color for the same target.
pub proof fn lemma_nearest_color_reads_palette(
    a: Seq<u8>,
    b: Seq<u8>,
    palette_offset: int,
    palette_size: int,
    target: Rgb,
)
    requires
        forall|j: int|
            0 <= j < palette_size ==> #[trigger] palette_color(a, palette_offset, j)
                == palette_color(b, palette_offset, j),
    ensures
        nearest_color(a, palette_offset, palette_size, target) == nearest_color(
            b,
            palette_offset,
            palette_size,
            target,
        ),
{
    if palette_size > 0 {
        let ka = lemma_nearest_exists(a, palette_offset, palette_size, target);
        let kb = lemma_nearest_exists(b, palette_offset, palette_size, target);
        assert(is_nearest(b, palette_offset, palette_size, target, ka)) by {
            assert forall|j: int| 0 <= j < palette_size implies distance_sq(
                target,
                palette_color(b, palette_offset, ka),
            ) <= distance_sq(target, #[trigger] palette_color(b, palette_offset, j)) by {
                assert(palette_color(a, palette_offset, j) == palette_color(b, palette_offset, j));
            }
            assert forall|j: int| 0 <= j < ka implies distance_sq(
                target,
                palette_color(b, palette_offset, ka),
            ) < distance_sq(target, #[trigger] palette_color(b, palette_offset, j)) by {
                assert(palette_color(a, palette_offset, j) == palette_color(b, palette_offset, j));
            }
        }
        lemma_nearest_unique(b, palette_offset, palette_size, target, ka, kb);
    }
}

/// Scans the palette once for the entry nearest to `target`.
fn nearest_in_palette(
    buffer: &[u8],
    palette_offset: usize,
    palette_size: usize,
    target: Rgb,
) -> (best: Rgb)
    requires
        span_fits(palette_offset as int, palette_size as int, 3, buffer@.len() as int),
    ensures
        best == nearest_color(buffer@, palette_offset as int, palette_size as int, target),
{
    let r: i32 = target.r as i32;
    let g: i32 = target.g as i32;
    let b: i32 = target.b as i32;
    let len: usize = buffer.len();
    let mut best = target;
    let mut min_dist: i32 = i32::MAX;
    let ghost mut best_k: int = 0;
    let mut j: usize = 0;
    while j < palette_size
        invariant
            j <= palette_size,
            len == buffer@.len(),
            span_fits(palette_offset as int, palette_size as int, 3, len as int),
            r == target.r,
            g == target.g,
            b == target.b,
            j == 0 ==> best == target && min_dist == i32::MAX,
            j > 0 ==> is_nearest(buffer@, palette_offset as int, j as int, target, best_k),
            j > 0 ==> best == palette_color(buffer@, palette_offset as int, best_k),
            j > 0 ==> min_dist == distance_sq(target, best),
        decreases palette_size - j,
    {
        let pj: usize = palette_offset + j * 3;
        let entry = Rgb { r: buffer[pj], g: buffer[pj + 1], b: buffer[pj + 2] };
        assert(entry == palette_color(buffer@, palette_offset as int, j as int));
        let dr: i32 = r - entry.r as i32;
        let dg: i32 = g - entry.g as i32;
        let db: i32 = b - entry.b as i32;
        assert(0 <= dr * dr <= 65025 && 0 <= dg * dg <= 65025 && 0 <= db * db <= 65025)
            by (nonlinear_arith)
            requires
                -255 <= dr <= 255,
                -255 <= dg <= 255,
                -255 <= db <= 255,
        ;
        let dist: i32 = dr * dr + dg * dg + db * db;
        assert(dist == distance_sq(target, entry));
        if dist < min_dist {
            min_dist = dist;
            best = entry;
            proof {
                best_k = j as int;
            }
        }
        j += 1;
    }
    proof {
        if palette_size > 0 {
            lemma_nearest_unique(
                buffer@,
                palette_offset as int,
                palette_size as int,
                target,
                best_k,
                nearest_index(buffer@, palette_offset as int, palette_size as int, target),
            );
        }
    }
    best
}

/// Replaces the color of each of the first `pixel_count` pixels with the
/// nearest entry of the palette of `palette_size` RGB triples that starts at
/// `palette_offset`. Distance is squared Euclidean distance in RGB space;
/// among equally near entries the one with the lowest index is taken. With an
/// empty palette every pixel keeps its color.
///
/// The palette is scanned in full for every pixel: the cost is
/// `pixel_count * palette_size` distance computations, with no spatial index.
/// That suits palettes of some tens of colors.
///
/// Pixels are processed in order, and the palette is read from the buffer as
/// it stands when a pixel's turn comes. [`lemma_quantized_apart`] says what
/// this amounts to when the palette lies behind the pixels.
pub fn nearest_color_batch(
    buffer: &mut [u8],
    pixel_count: usize,
    palette_offset: usize,
    palette_size: usize,
) -> (res: Result<(), KernelError>)
    ensures
        final(buffer)@.len() == old(buffer)@.len(),
        quantize_fits(
            old(buffer)@.len() as int,
            pixel_count as int,
            palette_offset as int,
            palette_size as int,
        ) ==> res == Ok::<(), KernelError>(()) && final(buffer)@ == quantized(
            old(buffer)@,
            pixel_count as int,
            palette_offset as int,
            palette_size as int,
        ),
        !quantize_fits(
            old(buffer)@.len() as int,
            pixel_count as int,
            palette_offset as int,
            palette_size as int,
        ) ==> res == Err::<(), KernelError>(KernelError::OutOfBounds) && final(buffer)@ == old(buffer)@,
        forall|k: int|
            0 <= k < old(buffer)@.len() && (k >= 4 * pixel_count || k % 4 == 3) ==> final(buffer)@[k] == old(buffer)@[k],
{
    let len: usize = buffer.len();
    match span_end(0, pixel_count, 4, len) {
        Err(_) => {
            return Err(KernelError::OutOfBounds);
        },
        Ok(_) => {},
    }
    match span_end(palette_offset, palette_size, 3, len) {
        Err(_) => {
            return Err(KernelError::OutOfBounds);
        },
        Ok(_) => {},
    }
    let mut i: usize = 0;
    while i < pixel_count
        invariant
            i <= pixel_count,
            len == buffer@.len(),
            buffer@.len() == old(buffer)@.len(),
            span_fits(0, pixel_count as int, 4, len as int),
            span_fits(palette_offset as int, palette_size as int, 3, len as int),
            buffer@ == quantized(
                old(buffer)@,
                i as int,
                palette_offset as int,
                palette_size as int,
            ),
            forall|k: int|
                0 <= k < len && (k >= 4 * i || k % 4 == 3) ==> buffer@[k] == old(buffer)@[k],
        decreases pixel_count - i,
    {
        let pi: usize = i * 4;
        let ghost before = buffer@;
        let target = Rgb { r: buffer[pi], g: buffer[pi + 1], b: buffer[pi + 2] };
        let best = nearest_in_palette(buffer, palette_offset, palette_size, target);
        buffer[pi] = best.r;
        buffer[pi + 1] = best.g;
        buffer[pi + 2] = best.b;
        assert(buffer@ == quantize_pixel(
            before,
            i as int,
            palette_offset as int,
            palette_size as int,
        ));
        i += 1;
    }
    Ok(())
}

/// Quantising keeps the buffer's length, every alpha byte and every byte
/// behind the pixel region.
pub proof fn lemma_quantized_frame(buf: Seq<u8>, n: int, palette_offset: int, palette_size: int)
    requires
        0 <= n,
        4 * n <= buf.len(),
    ensures
        quantized(buf, n, palette_offset, palette_size).len() == buf.len(),
        forall|k: int|
            0 <= k < buf.len() && (k >= 4 * n || k % 4 == 3) ==> quantized(
                buf,
                n,
                palette_offset,
                palette_size,
            )[k] == buf[k],
    decreases n,
{
    if n > 0 {
        lemma_quantized_frame(buf, n - 1, palette_offset, palette_size);
    }
}

/// Where the palette lies behind the pixel region, no pixel's new color
/// disturbs it, and every pixel ends as the palette's nearest color to what
/// that pixel was before the call.
pub proof fn lemma_quantized_apart(buf: Seq<u8>, n: int, palette_offset: int, palette_size: int)
    requires
        0 <= n,
        4 * n <= palette_offset,
        0 <= palette_size,
        palette_offset + 3 * palette_size <= buf.len(),
    ensures
        forall|i: int|
            0 <= i < n ==> #[trigger] pixel_color(
                quantized(buf, n, palette_offset, palette_size),
                i,
            ) == nearest_color(buf, palette_offset, palette_size, pixel_color(buf, i)),
    decreases n,
{
    if n > 0 {
        let prev = quantized(buf, n - 1, palette_offset, palette_size);
        let next = quantized(buf, n, palette_offset, palette_size);
        lemma_quantized_apart(buf, n - 1, palette_offset, palette_size);
        lemma_quantized_frame(buf, n - 1, palette_offset, palette_size);
        assert(pixel_color(prev, n - 1) == pixel_color(buf, n - 1));
        assert forall|j: int| 0 <= j < palette_size implies #[trigger] palette_color(
            prev,
            palette_offset,
            j,
        ) == palette_color(buf, palette_offset, j) by {}
        lemma_nearest_color_reads_palette(
            prev,
            buf,
            palette_offset,
            palette_size,
            pixel_color(buf, n - 1),
        );
        assert forall|i: int| 0 <= i < n implies #[trigger] pixel_color(next, i) == nearest_color(
            buf,
            palette_offset,
            palette_size,
            pixel_color(buf, i),
        ) by {
            if i < n - 1 {
                assert(pixel_color(next, i) == pixel_color(prev, i));
            }
        }
    }
}

} // verus!
