use vstd::prelude::*;

verus! {

/// The little-endian value of four bytes.
pub open spec fn le_u32(b0: u8, b1: u8, b2: u8, b3: u8) -> int {
    b0 as int + 256 * (b1 as int) + 65536 * (b2 as int) + 16777216 * (b3 as int)
}

/// Reads the first two bytes of `data` as a pair of integers.
pub fn safe_transmute(data: &[u8]) -> (r: Option<(u32, u32)>)
    ensures
        data@.len() < 2 ==> r is None,
        data@.len() >= 2 ==> r == Some((data@[0] as u32, data@[1] as u32)),
{
    if data.len() < 2 {
        None
    } else {
        Some((data[0] as u32, data[1] as u32))
    }
}

/// The little-endian `u32` held in the four bytes at `pos`.
pub fn u32_at(data: &[u8], pos: usize) -> (r: u32)
    requires
        pos + 4 <= data@.len(),
    ensures
        r as int == le_u32(data@[pos as int], data@[pos + 1], data@[pos + 2], data@[pos + 3]),
{
    let b0 = data[pos] as u32;
    let b1 = data[pos + 1] as u32;
    let b2 = data[pos + 2] as u32;
    let b3 = data[pos + 3] as u32;
    assert(b0 + 256 * b1 + 65536 * b2 + 16777216 * b3 <= u32::MAX) by (nonlinear_arith)
        requires
            b0 <= 255,
            b1 <= 255,
            b2 <= 255,
            b3 <= 255,
    ;
    b0 + 256 * b1 + 65536 * b2 + 16777216 * b3
}

/// Consumes a little-endian `u32` at `*pos` and advances past it; with fewer
/// than four bytes left nothing is consumed.
pub fn consume_u32(data: &[u8], pos: &mut usize) -> (r: Option<u32>)
    requires
        *old(pos) <= data@.len(),
    ensures
        data@.len() - *old(pos) < 4 ==> r is None && *final(pos) == *old(pos),
        data@.len() - *old(pos) >= 4 ==> {
            let p = *old(pos) as int;
            &&& r matches Some(v) && v as int == le_u32(data@[p], data@[p + 1], data@[p + 2], data@[p + 3])
            &&& *final(pos) == *old(pos) + 4
        },
{
    if data.len() - *pos < 4 {
        None
    } else {
        let v = u32_at(data, *pos);
        *pos = *pos + 4;
        Some(v)
    }
}

} // verus!
