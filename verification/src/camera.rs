//! Cameras: which listed camera a saved choice names, and repacking
//! 3-byte pixels out of a strided buffer.
use vstd::prelude::*;
use crate::text::str_eq;

verus! {

/// Which of the listed cameras (by name, in the system's order) a saved
/// choice picks: the first listed under that name; none, meaning the
/// system's first camera, when no name is saved or none is listed under it.
pub fn camera_choice(names: &Vec<String>, wanted: Option<&str>) -> (r: Option<usize>)
    ensures
        match r {
            Some(k) => {
                &&& wanted is Some
                &&& wanted.unwrap()@.len() > 0
                &&& k < names@.len()
                &&& names@[k as int]@ == wanted.unwrap()@
                &&& forall|j: int| 0 <= j < k ==> (#[trigger] names@[j])@ != wanted.unwrap()@
            },
            None => wanted is None || wanted.unwrap()@.len() == 0
                || forall|j: int| 0 <= j < names@.len() ==> (#[trigger] names@[j])@ != wanted.unwrap()@,
        },
{
    let w = match wanted {
        Some(w) => w,
        None => return None,
    };
    if w.unicode_len() == 0 {
        return None;
    }
    let mut k: usize = 0;
    while k < names.len()
        invariant
            wanted == Some(w),
            w@.len() > 0,
            k <= names@.len(),
            forall|j: int| 0 <= j < k ==> (#[trigger] names@[j])@ != w@,
        decreases names@.len() - k,
    {
        if str_eq(names[k].as_str(), w) {
            return Some(k);
        }
        k = k + 1;
    }
    None
}

/// Every read and write of a copy stays in bounds (and every offset fits
/// in 32 bits) when the data is long enough for `h` rows.
pub open spec fn packed_copy_fits(data_len: int, sw: u32, w: u32, h: u32, out_len: int, order: [usize; 3]) -> bool {
    data_len >= sw * h * 3 && h > 0 && w > 0 ==> {
        &&& ((h - 1) * sw + w - 1) * 3 <= u32::MAX
        &&& (w * h - 1) * 3 <= u32::MAX
        &&& ((h - 1) * sw + w - 1) * 3 + order[0] < data_len
        &&& ((h - 1) * sw + w - 1) * 3 + order[1] < data_len
        &&& ((h - 1) * sw + w - 1) * 3 + order[2] < data_len
        &&& w * h * 3 <= out_len
    }
}

/// Copies a `w`-by-`h` image of 3-byte pixels out of rows `sw` pixels wide
/// into a tightly packed buffer, channel `c` of each pixel taken from
/// channel `order[c]`; false, and nothing copied, when the data is too
/// short for `h` rows.
pub fn copy_packed(data: &[u8], sw: u32, w: u32, h: u32, out: &mut [u8], order: [usize; 3]) -> (r: bool)
    requires
        sw * h * 3 <= u32::MAX,
        packed_copy_fits(data@.len() as int, sw, w, h, old(out)@.len() as int, order),
    ensures
        r == (data@.len() >= sw * h * 3),
        final(out)@.len() == old(out)@.len(),
        !r ==> final(out)@ == old(out)@,
        r ==> forall|y: int, x: int, c: int|
            0 <= y < h && 0 <= x < w && 0 <= c < 3 ==> #[trigger] final(out)@[(y * w + x) * 3 + c]
                == data@[(y * sw + x) * 3 + order[c]],
        r ==> forall|k: int| w * h * 3 <= k < old(out)@.len() ==> #[trigger] final(out)@[k] == old(out)@[k],
{
    if (data.len() as u64) < (sw as u64) * (h as u64) * 3 {
        return false;
    }
    let ghost orig = out@;
    let dlen = data.len();
    let ghost dl = data@.len() as int;
    let ghost ol = out@.len() as int;
    let mut y: u32 = 0;
    while y < h
        invariant
            sw * h * 3 <= u32::MAX,
            packed_copy_fits(dl, sw, w, h, ol, order),
            dl == data@.len(),
            dl == dlen,
            ol == out@.len(),
            out@.len() == orig.len(),
            data@.len() >= sw * h * 3,
            y <= h,
            forall|yy: int, x: int, c: int|
                0 <= yy < y && 0 <= x < w && 0 <= c < 3 ==> #[trigger] out@[(yy * w + x) * 3 + c]
                    == data@[(yy * sw + x) * 3 + order[c]],
            forall|k: int| y * w * 3 <= k < out@.len() ==> #[trigger] out@[k] == orig[k],
        decreases h - y,
    {
        let mut x: u32 = 0;
        while x < w
            invariant
                sw * h * 3 <= u32::MAX,
                packed_copy_fits(dl, sw, w, h, ol, order),
                dl == data@.len(),
                dl == dlen,
                ol == out@.len(),
                out@.len() == orig.len(),
                data@.len() >= sw * h * 3,
                y < h,
                x <= w,
                forall|yy: int, xx: int, c: int|
                    0 <= yy < y && 0 <= xx < w && 0 <= c < 3 ==> #[trigger] out@[(yy * w + xx) * 3 + c]
                        == data@[(yy * sw + xx) * 3 + order[c]],
                forall|xx: int, c: int|
                    0 <= xx < x && 0 <= c < 3 ==> #[trigger] out@[(y * w + xx) * 3 + c]
                        == data@[(y * sw + xx) * 3 + order[c]],
                forall|k: int| (y * w + x) * 3 <= k < out@.len() ==> #[trigger] out@[k] == orig[k],
            decreases w - x,
        {
            proof {
                assert(y * sw + x <= (h - 1) * sw + w - 1) by (nonlinear_arith)
                    requires
                        y < h,
                        x < w,
                ;
                assert(y * w + x <= w * h - 1) by (nonlinear_arith)
                    requires
                        y < h,
                        x < w,
                ;
                assert(y * sw <= (h - 1) * sw) by (nonlinear_arith)
                    requires
                        y < h,
                ;
                assert(y * w <= w * h) by (nonlinear_arith)
                    requires
                        y < h,
                ;
            }
            let src = ((y * sw + x) * 3) as usize;
            let dst = ((y * w + x) * 3) as usize;
            let o0 = order[0];
            let o1 = order[1];
            let o2 = order[2];
            proof {
                assert(h > 0 && w > 0);
                assert(src as int == (y * sw + x) * 3);
                assert(src as int <= ((h - 1) * sw + w - 1) * 3);
                assert(src + o0 < dl && src + o1 < dl && src + o2 < dl);
                assert(dst + 2 < ol);
            }
            let ghost before = out@;
            out[dst] = data[src + o0];
            out[dst + 1] = data[src + o1];
            out[dst + 2] = data[src + o2];
            proof {
                assert forall|yy: int, xx: int, c: int|
                    0 <= yy < y && 0 <= xx < w && 0 <= c < 3 implies #[trigger] out@[(yy * w + xx) * 3 + c]
                        == data@[(yy * sw + xx) * 3 + order[c]] by {
                    assert((yy * w + xx) * 3 + c < dst) by (nonlinear_arith)
                        requires
                            yy < y,
                            xx < w,
                            c < 3,
                            dst == (y * w + x) * 3,
                            0 <= xx,
                            0 <= c,
                            0 <= yy,
                    ;
                }
                assert forall|xx: int, c: int|
                    0 <= xx < x + 1 && 0 <= c < 3 implies #[trigger] out@[(y * w + xx) * 3 + c]
                        == data@[(y * sw + xx) * 3 + order[c]] by {
                    if xx < x {
                        assert((y * w + xx) * 3 + c < dst) by (nonlinear_arith)
                            requires
                                xx < x,
                                c < 3,
                                dst == (y * w + x) * 3,
                        ;
                    } else {
                        assert((y * w + xx) * 3 + c == dst + c);
                        assert((y * sw + xx) * 3 == src);
                    }
                }
            }
            x = x + 1;
        }
        proof {
            assert((y * w + w) * 3 == (y + 1) * w * 3) by (nonlinear_arith);
        }
        y = y + 1;
    }
    proof {
        assert(h * w * 3 == w * h * 3) by (nonlinear_arith);
    }
    true
}

/// Copies a `w`-by-`h` corner of a gray image `sw` pixels wide and `sh`
/// tall into packed 3-byte pixels, the gray value in every channel; false,
/// and nothing copied, when the data is shorter than the whole image.
pub fn copy_gray(data: &[u8], sw: u32, sh: u32, w: u32, h: u32, out: &mut [u8]) -> (r: bool)
    requires
        sw * sh <= u32::MAX,
        w * h * 3 <= u32::MAX,
        w <= sw,
        h <= sh,
        w * h * 3 <= old(out)@.len(),
    ensures
        r == (data@.len() >= sw * sh),
        final(out)@.len() == old(out)@.len(),
        !r ==> final(out)@ == old(out)@,
        r ==> forall|y: int, x: int, c: int|
            0 <= y < h && 0 <= x < w && 0 <= c < 3 ==> #[trigger] final(out)@[(y * w + x) * 3 + c]
                == data@[y * sw + x],
        r ==> forall|k: int| w * h * 3 <= k < old(out)@.len() ==> #[trigger] final(out)@[k] == old(out)@[k],
{
    if (data.len() as u64) < (sw as u64) * (sh as u64) {
        return false;
    }
    proof {
        assert(sw * h <= sw * sh) by (nonlinear_arith)
            requires
                h <= sh,
        ;
    }
    let ghost orig = out@;
    let mut y: u32 = 0;
    while y < h
        invariant
            sw * sh <= u32::MAX,
            w * h * 3 <= u32::MAX,
            sw * h <= sw * sh,
            w * h * 3 <= out@.len(),
            w <= sw,
            h <= sh,
            out@.len() == orig.len(),
            data@.len() >= sw * sh,
            y <= h,
            forall|yy: int, x: int, c: int|
                0 <= yy < y && 0 <= x < w && 0 <= c < 3 ==> #[trigger] out@[(yy * w + x) * 3 + c]
                    == data@[yy * sw + x],
            forall|k: int| y * w * 3 <= k < out@.len() ==> #[trigger] out@[k] == orig[k],
        decreases h - y,
    {
        let mut x: u32 = 0;
        while x < w
            invariant
                sw * sh <= u32::MAX,
                w * h * 3 <= u32::MAX,
                sw * h <= sw * sh,
                w * h * 3 <= out@.len(),
                w <= sw,
                h <= sh,
                out@.len() == orig.len(),
                data@.len() >= sw * sh,
                y < h,
                x <= w,
                forall|yy: int, xx: int, c: int|
                    0 <= yy < y && 0 <= xx < w && 0 <= c < 3 ==> #[trigger] out@[(yy * w + xx) * 3 + c]
                        == data@[yy * sw + xx],
                forall|xx: int, c: int|
                    0 <= xx < x && 0 <= c < 3 ==> #[trigger] out@[(y * w + xx) * 3 + c] == data@[y * sw + xx],
                forall|k: int| (y * w + x) * 3 <= k < out@.len() ==> #[trigger] out@[k] == orig[k],
            decreases w - x,
        {
            proof {
                assert(y * sw + x < sw * h) by (nonlinear_arith)
                    requires
                        y < h,
                        x < w,
                        w <= sw,
                ;
                assert((y * w + x) * 3 + 2 < w * h * 3) by (nonlinear_arith)
                    requires
                        y < h,
                        x < w,
                ;
            }
            let src = (y * sw + x) as usize;
            let dst = ((y * w + x) * 3) as usize;
            let value = data[src];
            out[dst] = value;
            out[dst + 1] = value;
            out[dst + 2] = value;
            proof {
                assert forall|yy: int, xx: int, c: int|
                    0 <= yy < y && 0 <= xx < w && 0 <= c < 3 implies #[trigger] out@[(yy * w + xx) * 3 + c]
                        == data@[yy * sw + xx] by {
                    assert((yy * w + xx) * 3 + c < dst) by (nonlinear_arith)
                        requires
                            yy < y,
                            xx < w,
                            c < 3,
                            dst == (y * w + x) * 3,
                            0 <= xx,
                            0 <= c,
                            0 <= yy,
                    ;
                }
                assert forall|xx: int, c: int|
                    0 <= xx < x + 1 && 0 <= c < 3 implies #[trigger] out@[(y * w + xx) * 3 + c]
                        == data@[y * sw + xx] by {
                    if xx < x {
                        assert((y * w + xx) * 3 + c < dst) by (nonlinear_arith)
                            requires
                                xx < x,
                                c < 3,
                                dst == (y * w + x) * 3,
                        ;
                    } else {
                        assert((y * w + xx) * 3 + c == dst + c);
                    }
                }
            }
            x = x + 1;
        }
        proof {
            assert((y * w + w) * 3 == (y + 1) * w * 3) by (nonlinear_arith);
        }
        y = y + 1;
    }
    proof {
        assert(h * w * 3 == w * h * 3) by (nonlinear_arith);
    }
    true
}

} // verus!
