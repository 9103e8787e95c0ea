//! The pairing QR code as a picture: one pixel per module, inside the
//! four-module quiet zone the standard asks for (the window scales it up
//! without smoothing).
use vstd::prelude::*;

verus! {

/// What the qrcode crate encodes a text as, at error correction level M:
/// the number of modules per side and, row by row, which modules are dark;
/// nothing when the text does not fit in a QR code.
pub uninterp spec fn qr_modules(text: Seq<char>) -> Option<(nat, Seq<bool>)>;

/// qrcode's `QrCode::with_error_correction_level(text, EcLevel::M)`, with
/// `width` and `to_colors`. Claimed: the result is `qr_modules(text)`; a
/// code has 21 to 177 modules per side (versions 1 to 40, the only ones
/// the crate picks on its own) and one color per module.
#[verifier::external_body]
fn qr_code_of(text: &str) -> (r: Option<(usize, Vec<bool>)>)
    ensures
        match qr_modules(text@) {
            Some((w, m)) => r matches Some(x) && x.0 == w && x.1@ == m,
            None => r is None,
        },
        r matches Some(x) ==> 21 <= x.0 <= 177 && x.1@.len() == x.0 * x.0,
{
    match qrcode::QrCode::with_error_correction_level(text, qrcode::EcLevel::M) {
        Ok(code) => {
            let mut dark = Vec::new();
            for c in code.to_colors() {
                dark.push(match c {
                    qrcode::Color::Dark => true,
                    qrcode::Color::Light => false,
                });
            }
            Some((code.width(), dark))
        },
        Err(_) => None,
    }
}

/// The quiet zone around the code, in modules.
pub const QUIET_ZONE: usize = 4;

/// Byte `i` of the RGBA picture of a code `w` modules wide: pixel `i / 4`
/// of rows `w + 8` pixels wide; a dark module is black, everything else
/// (the quiet zone too) white, all opaque.
pub open spec fn qr_byte(w: nat, dark: Seq<bool>, i: int) -> u8 {
    let d = w + 2 * QUIET_ZONE;
    let p = i / 4;
    let y = p / d;
    let x = p % d;
    if i % 4 != 3 && QUIET_ZONE <= x < w + QUIET_ZONE && QUIET_ZONE <= y < w + QUIET_ZONE && dark[(y
        - QUIET_ZONE) * w + (x - QUIET_ZONE)] {
        0
    } else {
        255
    }
}

/// The picture of a text's QR code, as its side in pixels and its RGBA
/// bytes; a single transparent pixel when the text cannot be encoded.
pub open spec fn qr_picture(text: Seq<char>) -> (nat, Seq<u8>) {
    match qr_modules(text) {
        None => (1, seq![0u8, 0u8, 0u8, 0u8]),
        Some((w, dark)) => {
            let d: nat = w + 8;
            (d, Seq::new(d * d * 4, |i: int| qr_byte(w, dark, i)))
        },
    }
}

/// The picture of a text's QR code: its side in pixels and its RGBA bytes.
pub fn qr_image(text: &str) -> (r: (usize, Vec<u8>))
    ensures
        r.0 == qr_picture(text@).0,
        r.1@ == qr_picture(text@).1,
{
    match qr_code_of(text) {
        None => (1, vec![0u8, 0u8, 0u8, 0u8]),
        Some((w, dark)) => {
            let d = w + 2 * QUIET_ZONE;
            assert(d * d <= 185 * 185) by (nonlinear_arith)
                requires
                    d <= 185,
            ;
            let total = d * d * 4;
            let mut out: Vec<u8> = Vec::new();
            let mut i: usize = 0;
            while i < total
                invariant
                    21 <= w <= 177,
                    d == w + 2 * QUIET_ZONE,
                    total == d * d * 4,
                    dark@.len() == w * w,
                    i <= total,
                    out@.len() == i,
                    forall|k: int| 0 <= k < i ==> out@[k] == qr_byte(w as nat, dark@, k),
                decreases total - i,
            {
                let p = i / 4;
                let y = p / d;
                let x = p % d;
                let v: u8 = if i % 4 != 3 && QUIET_ZONE <= x && x < w + QUIET_ZONE && QUIET_ZONE <= y && y < w
                    + QUIET_ZONE {
                    let yy = y - QUIET_ZONE;
                    let xx = x - QUIET_ZONE;
                    assert(yy * w + xx < w * w && w * w <= 177 * 177) by (nonlinear_arith)
                        requires
                            yy < w,
                            xx < w,
                            w <= 177,
                    ;
                    if dark[yy * w + xx] {
                        0
                    } else {
                        255
                    }
                } else {
                    255
                };
                out.push(v);
                i = i + 1;
            }
            assert(out@ =~= qr_picture(text@).1);
            (d, out)
        },
    }
}

/// The picture has the quiet zone the standard asks for: every pixel
/// within four of the edge is white and opaque.
pub proof fn law_quiet_zone_is_white(text: Seq<char>, i: int)
    requires
        qr_modules(text) matches Some((w, dark)) && 0 <= i < qr_picture(text).1.len() && ({
            let d = w + 2 * QUIET_ZONE;
            let p = i / 4;
            (p / d < QUIET_ZONE || p / d >= w + QUIET_ZONE || p % d < QUIET_ZONE || p % d >= w + QUIET_ZONE)
        }),
    ensures
        qr_picture(text).1[i] == 255,
{
}

} // verus!
