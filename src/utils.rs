use vstd::prelude::*;

verus! {

/// The index of pixel `(x, y)` in a row-major buffer `width` pixels wide.
pub open spec fn pixel_index(x: int, y: int, width: int) -> int {
    y * width + x
}

/// Index of pixel `(x, y)` in a row-major buffer `width` pixels wide.
pub fn xy(x: usize, y: usize, width: usize) -> (i: usize)
    requires
        y * width + x <= usize::MAX,
    ensures
        i as int == pixel_index(x as int, y as int, width as int),
{
    y * width + x
}

/// Channel `k` (0 = lowest byte) of a packed 32-bit word.
pub open spec fn byte_of(w: u32, k: int) -> int {
    if k == 0 {
        (w as int) % 256
    } else if k == 1 {
        ((w as int) / 256) % 256
    } else if k == 2 {
        ((w as int) / 65536) % 256
    } else {
        (w as int) / 16777216
    }
}

/// Reorders a buffer of packed BGRA words into RGBA bytes, four per pixel, in
/// the order an image encoder expects.
pub fn bgra_to_rgba_bytes(buffer: &Vec<u32>) -> (out: Vec<u8>)
    requires
        buffer@.len() * 4 <= usize::MAX,
    ensures
        out@.len() == 4 * buffer@.len(),
        forall|i: int|
            0 <= i < buffer@.len() ==> {
                &&& out@[4 * i] as int == byte_of(buffer@[i], 2)
                &&& out@[4 * i + 1] as int == byte_of(buffer@[i], 1)
                &&& out@[4 * i + 2] as int == byte_of(buffer@[i], 0)
                &&& out@[4 * i + 3] as int == byte_of(buffer@[i], 3)
            },
{
    let mut out: Vec<u8> = Vec::new();
    let mut i: usize = 0;
    while i < buffer.len()
        invariant
            i <= buffer@.len(),
            buffer@.len() * 4 <= usize::MAX,
            out@.len() == 4 * i,
            forall|j: int|
                0 <= j < i ==> {
                    &&& out@[4 * j] as int == byte_of(buffer@[j], 2)
                    &&& out@[4 * j + 1] as int == byte_of(buffer@[j], 1)
                    &&& out@[4 * j + 2] as int == byte_of(buffer@[j], 0)
                    &&& out@[4 * j + 3] as int == byte_of(buffer@[j], 3)
                },
        decreases buffer@.len() - i,
    {
        let w = buffer[i];
        out.push(((w / 65536) % 256) as u8);
        out.push(((w / 256) % 256) as u8);
        out.push((w % 256) as u8);
        out.push((w / 16777216) as u8);
        i = i + 1;
    }
    out
}

/// The buffer slot of pixel `(x, y)`, or `None` when the pixel lies right of
/// the buffer's width or past its end.
pub fn pixel_slot(x: u32, y: u32, width: usize, len: usize) -> (r: Option<usize>)
    ensures
        r.is_some() <==> (x as int) < (width as int) && pixel_index(x as int, y as int, width as int)
            < len as int,
        r.is_some() ==> r.unwrap() as int == pixel_index(x as int, y as int, width as int),
{
    if (x as usize) >= width {
        return None;
    }
    let yy: u128 = y as u128;
    let ww: u128 = width as u128;
    assert(yy * ww <= 0xffff_ffff * 0xffff_ffff_ffff_ffff) by (nonlinear_arith)
        requires
            yy <= 0xffff_ffff,
            ww <= 0xffff_ffff_ffff_ffff,
    ;
    let i: u128 = yy * ww + (x as u128);
    if i < len as u128 {
        Some(i as usize)
    } else {
        None
    }
}

/// Pixel `(x, y)` of a buffer `width` pixels wide sits at slot `i` exactly when
/// `x` is the remainder and `y` the quotient of `i` by `width`.
pub proof fn lemma_slot_coordinates(x: int, y: int, width: int)
    requires
        0 <= x < width,
        0 <= y,
    ensures
        pixel_index(x, y, width) % width == x,
        pixel_index(x, y, width) / width == y,
{
    vstd::arithmetic::div_mod::lemma_fundamental_div_mod_converse(
        pixel_index(x, y, width),
        width,
        y,
        x,
    );
}

/// Slot `i` of a buffer `width` pixels wide holds pixel `(i % width, i / width)`.
pub proof fn lemma_coordinates_of_slot(i: int, width: int)
    requires
        0 <= i,
        0 < width,
    ensures
        0 <= i % width < width,
        0 <= i / width,
        pixel_index(i % width, i / width, width) == i,
{
    vstd::arithmetic::div_mod::lemma_fundamental_div_mod(i, width);
    vstd::arithmetic::div_mod::lemma_div_pos_is_pos(i, width);
    vstd::arithmetic::div_mod::lemma_mod_bound(i, width);
    vstd::arithmetic::mul::lemma_mul_is_commutative(width, i / width);
}

} // verus!
