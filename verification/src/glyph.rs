use vstd::prelude::*;
use vstd::arithmetic::div_mod::lemma_fundamental_div_mod_converse;
use crate::error::KernelError;
use crate::region::span_end;

verus! {

/// The byte that ends every row of the text.
pub const NEWLINE: u8 = 10;

/// The glyph that a level selects from a set of `chars_len` glyphs: the level
/// itself, or the last glyph where the level lies beyond the set.
pub open spec fn glyph_index(level: usize, chars_len: int) -> int {
    if level >= chars_len {
        chars_len - 1
    } else {
        level as int
    }
}

/// Length of the text for a grid: one byte per cell and one newline per row.
pub open spec fn ascii_len(width: int, height: int) -> int {
    width * height + height
}

/// Byte `k` of the text, with the glyph set read from `buf`. The text is laid
/// out row by row, `width` glyphs and then a newline; the cell in row `y` and
/// column `x` takes its level from index `y * width + x`.
pub open spec fn emitted(
    buf: Seq<u8>,
    levels: Seq<usize>,
    width: int,
    chars_offset: int,
    chars_len: int,
    k: int,
) -> u8 {
    let row = k / (width + 1);
    let col = k % (width + 1);
    if col == width {
        NEWLINE
    } else {
        buf[chars_offset + glyph_index(levels[row * width + col], chars_len)]
    }
}

/// The buffer after the first `k` bytes of the text have been written at
/// `output_offset`, in order, each glyph read from the buffer as it stands
/// when its turn comes.
pub open spec fn rendered(
    buf: Seq<u8>,
    levels: Seq<usize>,
    width: int,
    chars_offset: int,
    chars_len: int,
    output_offset: int,
    k: int,
) -> Seq<u8>
    decreases k,
{
    if k <= 0 {
        buf
    } else {
        let prev = rendered(buf, levels, width, chars_offset, chars_len, output_offset, k - 1);
        prev.update(
            output_offset + k - 1,
            emitted(prev, levels, width, chars_offset, chars_len, k - 1),
        )
    }
}

/// There are cells to map and no glyph to map them to.
pub open spec fn ascii_invalid(width: int, height: int, chars_len: int) -> bool {
    chars_len == 0 && width > 0 && height > 0
}

/// The grid has a level for every cell, and the glyph set and the text both
/// lie inside a buffer of `len` bytes.
pub open spec fn ascii_fits(
    len: int,
    levels_len: int,
    width: int,
    height: int,
    chars_offset: int,
    chars_len: int,
    output_offset: int,
) -> bool {
    &&& width * height <= levels_len
    &&& chars_offset + chars_len <= len
    &&& output_offset + ascii_len(width, height) <= len
}

/// Where column `x` of row `y` stands in the text and among the levels. The
/// column `x == width` is the row's newline.
pub proof fn lemma_grid_position(x: int, y: int, width: int, height: int)
    requires
        0 <= x <= width,
        0 <= y < height,
    ensures
        0 <= y * (width + 1) + x < ascii_len(width, height),
        (y * (width + 1) + x) / (width + 1) == y,
        (y * (width + 1) + x) % (width + 1) == x,
        (y + 1) * (width + 1) == y * (width + 1) + width + 1,
        0 <= y * width,
        x < width ==> y * width + x < width * height,
{
    assert((y + 1) * (width + 1) == y * (width + 1) + width + 1) by (nonlinear_arith);
    assert((y + 1) * (width + 1) <= height * (width + 1)) by (nonlinear_arith)
        requires
            y + 1 <= height,
            0 <= width,
    ;
    assert(height * (width + 1) == width * height + height) by (nonlinear_arith);
    assert(0 <= y * (width + 1) && 0 <= y * width) by (nonlinear_arith)
        requires
            0 <= y,
            0 <= width,
    ;
    lemma_fundamental_div_mod_converse(y * (width + 1) + x, width + 1, y, x);
    assert((y + 1) * width == y * width + width) by (nonlinear_arith);
    assert((y + 1) * width <= height * width) by (nonlinear_arith)
        requires
            y + 1 <= height,
            0 <= width,
    ;
    assert(height * width == width * height) by (nonlinear_arith);
}

/// Writing the text keeps the buffer's length and every byte outside the
/// `k` bytes written.
pub proof fn lemma_rendered_frame(
    buf: Seq<u8>,
    levels: Seq<usize>,
    width: int,
    chars_offset: int,
    chars_len: int,
    output_offset: int,
    k: int,
)
    requires
        0 <= k,
        0 <= output_offset,
        output_offset + k <= buf.len(),
    ensures
        rendered(buf, levels, width, chars_offset, chars_len, output_offset, k).len() == buf.len(),
        forall|p: int|
            0 <= p < buf.len() && !(output_offset <= p < output_offset + k) ==> rendered(
                buf,
                levels,
                width,
                chars_offset,
                chars_len,
                output_offset,
                k,
            )[p] == buf[p],
    decreases k,
{
    if k > 0 {
        lemma_rendered_frame(buf, levels, width, chars_offset, chars_len, output_offset, k - 1);
    }
}

/// Where the glyph set lies clear of the text, writing the text does not
/// disturb it, and byte `j` of the text is the newline at the end of a row and
/// elsewhere the glyph that the cell's level selects from the set as it was
/// before the call.
pub proof fn lemma_rendered_apart(
    buf: Seq<u8>,
    levels: Seq<usize>,
    width: int,
    chars_offset: int,
    chars_len: int,
    output_offset: int,
    k: int,
)
    requires
        0 <= k,
        0 <= width,
        0 <= output_offset,
        output_offset + k <= buf.len(),
        0 <= chars_offset,
        chars_offset + chars_len <= buf.len(),
        width == 0 || chars_len > 0,
        chars_offset + chars_len <= output_offset || output_offset + k <= chars_offset,
    ensures
        forall|j: int|
            0 <= j < k ==> rendered(
                buf,
                levels,
                width,
                chars_offset,
                chars_len,
                output_offset,
                k,
            )[output_offset + j] == #[trigger] emitted(
                buf,
                levels,
                width,
                chars_offset,
                chars_len,
                j,
            ),
    decreases k,
{
    if k > 0 {
        let prev = rendered(buf, levels, width, chars_offset, chars_len, output_offset, k - 1);
        lemma_rendered_apart(buf, levels, width, chars_offset, chars_len, output_offset, k - 1);
        lemma_rendered_frame(buf, levels, width, chars_offset, chars_len, output_offset, k - 1);
        let col = (k - 1) % (width + 1);
        if col != width {
            let row = (k - 1) / (width + 1);
            let at = chars_offset + glyph_index(levels[row * width + col], chars_len);
            assert(chars_offset <= at < chars_offset + chars_len);
            assert(prev[at] == buf[at]);
        }
        assert(emitted(prev, levels, width, chars_offset, chars_len, k - 1) == emitted(
            buf,
            levels,
            width,
            chars_offset,
            chars_len,
            k - 1,
        ));
    }
}

/// Writes a grid of brightness levels as text: `height` rows of `width`
/// glyphs, each row ended by a newline, starting at `output_offset`. Returns
/// the number of bytes written, `width * height + height`.
///
/// A level is a brightness scaled by `chars_len` and rounded down, so it names
/// the glyph to take from the set of `chars_len` bytes at `chars_offset`; a
/// level beyond the set takes the last glyph. The cell in row `y` and column
/// `x` has its level at index `y * width + x`.
///
/// A grid with cells and an empty glyph set is refused as an invalid argument
/// before any region is looked at. Otherwise the levels must cover the grid,
/// and the glyph set and the text must lie inside the buffer.
///
/// Bytes are written in order and each glyph is read from the buffer as it
/// stands at that moment. [`lemma_rendered_apart`] says what the text is where
/// the glyph set lies clear of it.
pub fn generate_ascii(
    buffer: &mut [u8],
    levels: &[usize],
    width: usize,
    height: usize,
    chars_offset: usize,
    chars_len: usize,
    output_offset: usize,
) -> (res: Result<usize, KernelError>)
    ensures
        final(buffer)@.len() == old(buffer)@.len(),
        ascii_invalid(width as int, height as int, chars_len as int) ==> res == Err::<
            usize,
            KernelError,
        >(KernelError::InvalidArgument) && final(buffer)@ == old(buffer)@,
        !ascii_invalid(width as int, height as int, chars_len as int) && !ascii_fits(
            old(buffer)@.len() as int,
            levels@.len() as int,
            width as int,
            height as int,
            chars_offset as int,
            chars_len as int,
            output_offset as int,
        ) ==> res == Err::<usize, KernelError>(KernelError::OutOfBounds) && final(buffer)@ == old(buffer)@,
        !ascii_invalid(width as int, height as int, chars_len as int) && ascii_fits(
            old(buffer)@.len() as int,
            levels@.len() as int,
            width as int,
            height as int,
            chars_offset as int,
            chars_len as int,
            output_offset as int,
        ) ==> res == Ok::<usize, KernelError>(ascii_len(width as int, height as int) as usize)
            && final(buffer)@ == rendered(
            old(buffer)@,
            levels@,
            width as int,
            chars_offset as int,
            chars_len as int,
            output_offset as int,
            ascii_len(width as int, height as int),
        ),
        forall|p: int|
            0 <= p < old(buffer)@.len() && !(output_offset <= p < output_offset + ascii_len(
                width as int,
                height as int,
            )) ==> final(buffer)@[p] == old(buffer)@[p],
{
    let len: usize = buffer.len();
    if chars_len == 0 && width > 0 && height > 0 {
        return Err(KernelError::InvalidArgument);
    }
    let cells: usize = match span_end(0, width, height, levels.len()) {
        Ok(cells) => cells,
        Err(_) => {
            return Err(KernelError::OutOfBounds);
        },
    };
    match span_end(chars_offset, chars_len, 1, len) {
        Ok(_) => {},
        Err(_) => {
            return Err(KernelError::OutOfBounds);
        },
    }
    let glyphs_end: usize = match span_end(output_offset, cells, 1, len) {
        Ok(end) => end,
        Err(_) => {
            return Err(KernelError::OutOfBounds);
        },
    };
    match span_end(glyphs_end, height, 1, len) {
        Ok(_) => {},
        Err(_) => {
            return Err(KernelError::OutOfBounds);
        },
    }
    let ghost orig = buffer@;
    let ghost w = width as int;
    let ghost total = ascii_len(width as int, height as int);
    let mut out_idx: usize = output_offset;
    let mut y: usize = 0;
    proof {
        assert(height == 0 ==> w * height + height == 0) by (nonlinear_arith);
        assert(0 * (w + 1) == 0) by (nonlinear_arith);
    }
    while y < height
        invariant
            y <= height,
            w == width,
            total == ascii_len(w, height as int),
            len == buffer@.len(),
            orig.len() == len,
            w * height <= levels@.len(),
            chars_offset + chars_len <= len,
            output_offset + total <= len,
            !ascii_invalid(w, height as int, chars_len as int),
            y < height ==> out_idx == output_offset + y * (w + 1),
            y == height ==> out_idx == output_offset + total,
            buffer@ == rendered(
                orig,
                levels@,
                w,
                chars_offset as int,
                chars_len as int,
                output_offset as int,
                out_idx - output_offset,
            ),
            forall|p: int|
                0 <= p < len && !(output_offset <= p < out_idx) ==> buffer@[p] == orig[p],
        decreases height - y,
    {
        let mut x: usize = 0;
        while x < width
            invariant
                x <= width,
                y < height,
                w == width,
                total == ascii_len(w, height as int),
                len == buffer@.len(),
                orig.len() == len,
                w * height <= levels@.len(),
                chars_offset + chars_len <= len,
                output_offset + total <= len,
                !ascii_invalid(w, height as int, chars_len as int),
                out_idx == output_offset + y * (w + 1) + x,
                buffer@ == rendered(
                    orig,
                    levels@,
                    w,
                    chars_offset as int,
                    chars_len as int,
                    output_offset as int,
                    out_idx - output_offset,
                ),
                forall|p: int|
                    0 <= p < len && !(output_offset <= p < out_idx) ==> buffer@[p] == orig[p],
            decreases width - x,
        {
            proof {
                lemma_grid_position(x as int, y as int, w, height as int);
            }
            let raw: usize = levels[y * width + x];
            let char_idx: usize = if raw >= chars_len {
                chars_len - 1
            } else {
                raw
            };
            buffer[out_idx] = buffer[chars_offset + char_idx];
            out_idx += 1;
            x += 1;
        }
        proof {
            lemma_grid_position(w, y as int, w, height as int);
            if y + 1 < height {
                lemma_grid_position(0, y + 1, w, height as int);
            } else {
                assert((y + 1) * (w + 1) == w * height + height) by (nonlinear_arith)
                    requires
                        y + 1 == height,
                ;
            }
        }
        buffer[out_idx] = NEWLINE;
        out_idx += 1;
        y += 1;
    }
    Ok(out_idx - output_offset)
}

} // verus!
