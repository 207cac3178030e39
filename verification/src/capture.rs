//! Frame capture: turning a texture readback into a contiguous RGBA image.
//!
//! A texture-to-buffer copy pads every row to a multiple of 256 bytes. The
//! functions here compute that padded layout, strip the padding again, and
//! swap the red and blue channels of BGRA surfaces. The readback itself is
//! GPU work and stays with the caller.

use vstd::prelude::*;

verus! {

/// The row alignment of texture-to-buffer copies.
pub const COPY_ROW_ALIGNMENT: u32 = 256;

/// The surface formats a capture can read: 8-bit RGBA, in either channel
/// order.
#[derive(Clone, Copy, Debug, PartialEq, Eq, Structural)]
pub enum CaptureFormat {
    /// Red, green, blue, alpha.
    Rgba8,
    /// Blue, green, red, alpha (swizzled on readback).
    Bgra8,
}

/// `x` rounded up to a multiple of 256.
pub open spec fn align_256(x: int) -> int {
    if x % 256 == 0 {
        x
    } else {
        x - x % 256 + 256
    }
}

/// The padded length of one row of `width` RGBA pixels in a readback.
pub fn padded_bytes_per_row(width: u32) -> (r: u32)
    requires
        align_256(width * 4) <= u32::MAX,
    ensures
        r == align_256(width * 4),
        r % 256 == 0,
        r >= width * 4,
{
    let row = width * 4;
    let rem = row % COPY_ROW_ALIGNMENT;
    if rem == 0 {
        row
    } else {
        row + (COPY_ROW_ALIGNMENT - rem)
    }
}

/// The rows of a padded readback with the padding removed: for each of the
/// first `rows` rows, the first `row_len` of its `stride` bytes.
pub open spec fn unpadded_rows(data: Seq<u8>, row_len: int, stride: int, rows: nat) -> Seq<u8>
    decreases rows,
{
    if rows == 0 {
        Seq::empty()
    } else {
        unpadded_rows(data, row_len, stride, (rows - 1) as nat) + data.subrange(
            (rows - 1) * stride,
            (rows - 1) * stride + row_len,
        )
    }
}

/// `s` with the first and third byte of every complete 4-byte pixel
/// exchanged; a trailing partial pixel is left as it is.
pub open spec fn swap_red_blue_spec(s: Seq<u8>) -> Seq<u8> {
    Seq::new(
        s.len(),
        |i: int|
            if i - i % 4 + 4 <= s.len() {
                if i % 4 == 0 {
                    s[i + 2]
                } else if i % 4 == 2 {
                    s[i - 2]
                } else {
                    s[i]
                }
            } else {
                s[i]
            },
    )
}

/// Stripping the padding leaves `rows` rows of `row_len` bytes.
pub proof fn lemma_unpadded_len(data: Seq<u8>, row_len: int, stride: int, rows: nat)
    requires
        0 <= row_len,
        0 <= stride,
        rows > 0 ==> (rows - 1) * stride + row_len <= data.len(),
    ensures
        unpadded_rows(data, row_len, stride, rows).len() == rows * row_len,
    decreases rows,
{
    if rows > 0 {
        assert((rows - 1) * stride >= 0) by (nonlinear_arith)
            requires
                rows > 0,
                0 <= stride,
        ;
        if rows > 1 {
            assert((rows - 2) * stride + row_len <= (rows - 1) * stride + row_len) by (nonlinear_arith)
                requires
                    rows > 1,
                    0 <= stride,
            ;
        }
        lemma_unpadded_len(data, row_len, stride, (rows - 1) as nat);
        assert(rows * row_len == (rows - 1) * row_len + row_len) by (nonlinear_arith);
    }
}

/// Swapping the red and blue channels twice restores the pixels.
pub proof fn lemma_swap_red_blue_involution(s: Seq<u8>)
    ensures
        swap_red_blue_spec(swap_red_blue_spec(s)) == s,
{
    let t = swap_red_blue_spec(s);
    assert forall|i: int| 0 <= i < s.len() implies #[trigger] swap_red_blue_spec(t)[i] == s[i] by {
        if i - i % 4 + 4 <= s.len() {
            if i % 4 == 0 {
                assert((i + 2) - (i + 2) % 4 == i - i % 4);
            } else if i % 4 == 2 {
                assert((i - 2) - (i - 2) % 4 == i - i % 4);
            }
        }
    }
    assert(swap_red_blue_spec(t) =~= s);
}

proof fn lemma_row_start(row: int, stride: int, rows: int)
    requires
        0 <= row < rows,
        0 <= stride,
    ensures
        0 <= row * stride <= (rows - 1) * stride,
        row * stride + stride == (row + 1) * stride,
{
    assert(0 <= row * stride <= (rows - 1) * stride) by (nonlinear_arith)
        requires
            0 <= row < rows,
            0 <= stride,
    ;
    assert(row * stride + stride == (row + 1) * stride) by (nonlinear_arith);
}

/// Copies the first `row_len` bytes of each of the `rows` rows of a padded
/// readback whose rows are `stride` bytes apart.
pub fn strip_row_padding(data: &[u8], row_len: usize, stride: usize, rows: usize) -> (r: Vec<u8>)
    requires
        rows > 0 ==> (rows - 1) * stride + row_len <= data@.len(),
    ensures
        r@ == unpadded_rows(data@, row_len as int, stride as int, rows as nat),
{
    let data_len = data.len();
    let mut out: Vec<u8> = Vec::new();
    let mut row: usize = 0;
    while row < rows
        invariant
            data_len == data@.len(),
            0 <= row <= rows,
            rows > 0 ==> (rows - 1) * stride + row_len <= data@.len(),
            out@ == unpadded_rows(data@, row_len as int, stride as int, row as nat),
        decreases rows - row,
    {
        proof {
            lemma_row_start(row as int, stride as int, rows as int);
        }
        let start = row * stride;
        let mut i: usize = 0;
        while i < row_len
            invariant
                data_len == data@.len(),
                0 <= i <= row_len,
                start == row * stride,
                start + row_len <= data@.len(),
                out@ == unpadded_rows(data@, row_len as int, stride as int, row as nat) + data@.subrange(
                    start as int,
                    start + i,
                ),
            decreases row_len - i,
        {
            out.push(data[start + i]);
            proof {
                assert(data@.subrange(start as int, start + i + 1) =~= data@.subrange(start as int, start + i).push(
                    data@[start + i],
                ));
            }
            i = i + 1;
        }
        row = row + 1;
    }
    out
}

/// Exchanges the red and blue channels of every complete RGBA pixel.
pub fn swap_red_blue(pixels: &mut Vec<u8>)
    ensures
        final(pixels)@ == swap_red_blue_spec(old(pixels)@),
{
    let ghost orig = pixels@;
    let n = pixels.len();
    let mut i: usize = 0;
    while n - i >= 4
        invariant
            n == orig.len(),
            pixels@.len() == n,
            i % 4 == 0,
            i <= n,
            forall|j: int| 0 <= j < i ==> #[trigger] pixels@[j] == swap_red_blue_spec(orig)[j],
            forall|j: int| i <= j < n ==> #[trigger] pixels@[j] == orig[j],
        decreases n - i,
    {
        let r = pixels[i];
        let b = pixels[i + 2];
        pixels.set(i, b);
        pixels.set(i + 2, r);
        proof {
            assert forall|j: int| 0 <= j < i + 4 implies #[trigger] pixels@[j] == swap_red_blue_spec(orig)[j] by {
                if j >= i {
                    assert(j - j % 4 == i);
                }
            }
        }
        i = i + 4;
    }
    proof {
        assert forall|j: int| 0 <= j < n implies #[trigger] pixels@[j] == swap_red_blue_spec(orig)[j] by {
            if j >= i {
                assert(j - j % 4 + 4 > n);
            }
        }
        assert(pixels@ =~= swap_red_blue_spec(orig));
    }
}

/// The contiguous RGBA image of a `width` × `height` readback whose rows
/// are `stride` bytes apart, in the channel order of `format`.
pub fn frame_rgba(data: &[u8], width: u32, height: u32, stride: u32, format: CaptureFormat) -> (r: Vec<u8>)
    requires
        width * 4 <= u32::MAX,
        height > 0 ==> (height - 1) * stride + width * 4 <= data@.len(),
    ensures
        r@.len() == width * 4 * height,
        format == CaptureFormat::Rgba8 ==> r@ == unpadded_rows(data@, width * 4, stride as int, height as nat),
        format == CaptureFormat::Bgra8 ==> r@ == swap_red_blue_spec(
            unpadded_rows(data@, width * 4, stride as int, height as nat),
        ),
{
    let mut rgba = strip_row_padding(data, (width * 4) as usize, stride as usize, height as usize);
    proof {
        lemma_unpadded_len(data@, width * 4, stride as int, height as nat);
        assert(height * (width * 4) == width * 4 * height) by (nonlinear_arith);
    }
    match format {
        CaptureFormat::Rgba8 => {},
        CaptureFormat::Bgra8 => {
            swap_red_blue(&mut rgba);
        },
    }
    rgba
}

} // verus!
