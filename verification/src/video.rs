//! H.264 bitstream framing: length-prefixed (AVCC) samples to start-code
//! (Annex-B) streams, and the units of an Annex-B stream.
use vstd::prelude::*;

verus! {

/// The big-endian 32-bit number at `i`.
pub open spec fn be32(s: Seq<u8>, i: int) -> int {
    s[i] * 0x100_0000 + s[i + 1] * 0x1_0000 + s[i + 2] * 0x100 + s[i + 3]
}

/// The Annex-B form of the length-prefixed units from `i` on: each unit
/// behind a 4-byte start code; a zero length, or a length running past the
/// sample, ends the stream.
pub open spec fn annexb_from(s: Seq<u8>, i: int) -> Seq<u8>
    decreases s.len() - i,
{
    if i < 0 || i + 4 > s.len() {
        seq![]
    } else {
        let len = be32(s, i);
        let j = i + 4;
        if len <= 0 || j + len > s.len() {
            seq![]
        } else {
            seq![0u8, 0u8, 0u8, 1u8] + s.subrange(j, j + len) + annexb_from(s, j + len)
        }
    }
}

/// Appends the Annex-B form of an AVCC sample to `out`.
pub fn avcc_to_annexb(sample: &[u8], out: &mut Vec<u8>)
    ensures
        final(out)@ == old(out)@ + annexb_from(sample@, 0),
{
    let n = sample.len();
    let mut i: usize = 0;
    loop
        invariant_except_break
            n == sample@.len(),
            i <= n,
            old(out)@ + annexb_from(sample@, 0) == out@ + annexb_from(sample@, i as int),
        ensures
            old(out)@ + annexb_from(sample@, 0) == out@,
        decreases n - i,
    {
        if n - i < 4 {
            assert(annexb_from(sample@, i as int) == Seq::<u8>::empty());
            assert(out@ + Seq::<u8>::empty() =~= out@);
            break;
        }
        let len = (sample[i] as usize) * 0x100_0000 + (sample[i + 1] as usize) * 0x1_0000
            + (sample[i + 2] as usize) * 0x100 + (sample[i + 3] as usize);
        assert(len == be32(sample@, i as int));
        let j = i + 4;
        if len == 0 || len > n - j {
            assert(annexb_from(sample@, i as int) == Seq::<u8>::empty());
            assert(out@ + Seq::<u8>::empty() =~= out@);
            break;
        }
        let ghost before = out@;
        out.push(0);
        out.push(0);
        out.push(0);
        out.push(1);
        let mut k = j;
        while k < j + len
            invariant
                j + len <= n,
                n == sample@.len(),
                j <= k <= j + len,
                out@ == before + seq![0u8, 0u8, 0u8, 1u8] + sample@.subrange(j as int, k as int),
            decreases j + len - k,
        {
            out.push(sample[k]);
            assert(sample@.subrange(j as int, k + 1) =~= sample@.subrange(j as int, k as int).push(sample@[k as int]));
            k = k + 1;
        }
        assert(annexb_from(sample@, i as int) == seq![0u8, 0u8, 0u8, 1u8] + sample@.subrange(j as int, (j + len) as int)
            + annexb_from(sample@, (j + len) as int));
        assert(before + (seq![0u8, 0u8, 0u8, 1u8] + sample@.subrange(j as int, (j + len) as int)
            + annexb_from(sample@, (j + len) as int)) =~= out@ + annexb_from(sample@, (j + len) as int));
        i = j + len;
    }
}

/// A start code at `i`: how long it is, 0 when there is none (a 4-byte code
/// is taken before the 3-byte one it contains).
pub open spec fn start_code_at(b: Seq<u8>, i: int) -> int {
    if i + 4 <= b.len() && b[i] == 0 && b[i + 1] == 0 && b[i + 2] == 0 && b[i + 3] == 1 {
        4
    } else if i + 3 <= b.len() && b[i] == 0 && b[i + 1] == 0 && b[i + 2] == 1 {
        3
    } else {
        0
    }
}

/// The units of an Annex-B stream from `i` on, as (start, end) byte ranges:
/// each runs from just after a start code to the next code (or the end).
/// `start` is where the unit being read began, if one is open.
pub open spec fn nal_ranges(b: Seq<u8>, i: int, start: Option<int>) -> Seq<(int, int)>
    decreases b.len() - i,
{
    if i < 0 || i + 3 > b.len() {
        match start {
            Some(s) => seq![(s, b.len() as int)],
            None => seq![],
        }
    } else {
        let skip = start_code_at(b, i);
        if skip > 0 {
            let pre = match start {
                Some(s) => seq![(s, i)],
                None => seq![],
            };
            pre + nal_ranges(b, i + skip, Some(i + skip))
        } else {
            nal_ranges(b, i + 1, start)
        }
    }
}

/// The ranges are slices of the stream.
pub open spec fn nal_slices(b: Seq<u8>, rs: Seq<(int, int)>) -> Seq<Seq<u8>> {
    rs.map_values(|r: (int, int)| b.subrange(r.0, r.1))
}

/// The units of an Annex-B stream, without their start codes.
pub fn annexb_nals(bitstream: &[u8]) -> (r: Vec<&[u8]>)
    ensures
        r@.map_values(|x: &[u8]| x@) == nal_slices(bitstream@, nal_ranges(bitstream@, 0, None)),
{
    let b = bitstream;
    let n = b.len();
    let mut nals: Vec<&[u8]> = Vec::new();
    let mut start: Option<usize> = None;
    let mut i: usize = 0;
    while n - i >= 3
        invariant
            n == b@.len(),
            i <= n,
            match start {
                Some(s) => s <= i,
                None => true,
            },
            nals@.map_values(|x: &[u8]| x@) + nal_slices(b@, nal_ranges(b@, i as int, match start {
                Some(s) => Some(s as int),
                None => None,
            })) == nal_slices(b@, nal_ranges(b@, 0, None)),
        decreases n - i,
    {
        let skip: usize = if n - i >= 4 && b[i] == 0 && b[i + 1] == 0 && b[i + 2] == 0 && b[i + 3] == 1 {
            4
        } else if b[i] == 0 && b[i + 1] == 0 && b[i + 2] == 1 {
            3
        } else {
            0
        };
        assert(skip == start_code_at(b@, i as int));
        if skip > 0 {
            let ghost before = nals@.map_values(|x: &[u8]| x@);
            let ghost st = match start {
                Some(s) => Some(s as int),
                None => None::<int>,
            };
            if let Some(s) = start {
                let piece = vstd::slice::slice_subrange(b, s, i);
                nals.push(piece);
                assert(nals@.map_values(|x: &[u8]| x@) =~= before.push(b@.subrange(s as int, i as int)));
            }
            proof {
                let pre = match st {
                    Some(s) => seq![(s, i as int)],
                    None => Seq::<(int, int)>::empty(),
                };
                let rest = nal_ranges(b@, i + skip, Some(i + skip));
                assert(nal_slices(b@, pre + rest) =~= nal_slices(b@, pre) + nal_slices(b@, rest));
                assert(nals@.map_values(|x: &[u8]| x@) =~= before + nal_slices(b@, pre));
            }
            start = Some(i + skip);
            i = i + skip;
        } else {
            i = i + 1;
        }
    }
    if let Some(s) = start {
        let ghost before = nals@.map_values(|x: &[u8]| x@);
        let piece = vstd::slice::slice_subrange(b, s, n);
        nals.push(piece);
        assert(nals@.map_values(|x: &[u8]| x@) =~= before.push(b@.subrange(s as int, n as int)));
        assert(nal_slices(b@, seq![(s as int, n as int)]) =~= seq![b@.subrange(s as int, n as int)]);
    } else {
        assert(nal_slices(b@, Seq::<(int, int)>::empty()) =~= Seq::<Seq<u8>>::empty());
    }
    assert(nals@.map_values(|x: &[u8]| x@) =~= nal_slices(b@, nal_ranges(b@, 0, None)));
    nals
}

/// The unit types of an Annex-B access unit from `i` on, in order: the low
/// five bits of the byte after each start code.
pub open spec fn types_from(au: Seq<u8>, i: int) -> Seq<u8>
    decreases au.len() - i,
{
    if i < 0 || i + 3 >= au.len() {
        seq![]
    } else {
        let short = au[i] == 0 && au[i + 1] == 0 && au[i + 2] == 1;
        let long = au[i] == 0 && au[i + 1] == 0 && au[i + 2] == 0 && au[i + 3] == 1;
        if short || long {
            let start = i + if short {
                3int
            } else {
                4int
            };
            (if start < au.len() {
                seq![(au[start] % 32) as u8]
            } else {
                seq![]
            }) + types_from(au, start)
        } else {
            types_from(au, i + 1)
        }
    }
}

/// The unit types in one Annex-B access unit, in order.
pub fn nal_types(au: &[u8]) -> (r: Vec<u8>)
    ensures
        r@ == types_from(au@, 0),
{
    let n = au.len();
    let mut types: Vec<u8> = Vec::new();
    let mut i: usize = 0;
    while n - i > 3
        invariant
            n == au@.len(),
            i <= n,
            types@ + types_from(au@, i as int) == types_from(au@, 0),
        decreases n - i,
    {
        let short = au[i] == 0 && au[i + 1] == 0 && au[i + 2] == 1;
        let long = au[i] == 0 && au[i + 1] == 0 && au[i + 2] == 0 && au[i + 3] == 1;
        if short || long {
            let start = i + if short {
                3
            } else {
                4
            };
            let ghost tb = types@;
            if start < n {
                let first = au[start];
                let t = first & 0x1f;
                assert(t == first % 32) by (bit_vector)
                    requires
                        t == first & 0x1f,
                ;
                types.push(t);
                assert(types@ =~= tb + seq![(au@[start as int] % 32) as u8]);
            }
            assert(types@ + types_from(au@, start as int) =~= tb + types_from(au@, i as int));
            i = start;
        } else {
            i = i + 1;
        }
    }
    assert(types@ + Seq::<u8>::empty() =~= types@);
    types
}

/// The quarter turns a clip's track matrix asks for, from the signs of its
/// entries a, b, c, d: a right-angle turn is all that is read.
pub open spec fn turns_of(a: int, b: int, c: int, d: int) -> u8 {
    let sa = if a > 0 { 1int } else if a < 0 { -1int } else { 0int };
    let sb = if b > 0 { 1int } else if b < 0 { -1int } else { 0int };
    let sc = if c > 0 { 1int } else if c < 0 { -1int } else { 0int };
    let sd = if d > 0 { 1int } else if d < 0 { -1int } else { 0int };
    if sa == 0 && sb == 1 && sc == -1 && sd == 0 {
        1
    } else if sa == -1 && sb == 0 && sc == 0 && sd == -1 {
        2
    } else if sa == 0 && sb == -1 && sc == 1 && sd == 0 {
        3
    } else {
        0
    }
}

fn sign_of(v: i32) -> (r: i32)
    ensures
        r == (if v > 0 { 1int } else if v < 0 { -1int } else { 0int }),
{
    if v > 0 {
        1
    } else if v < 0 {
        -1
    } else {
        0
    }
}

/// The quarter turns a phone recorded a clip with, from its track matrix
/// (16.16 fixed point entries a, b, c, d).
pub fn quarter_turns(a: i32, b: i32, c: i32, d: i32) -> (r: u8)
    ensures
        r == turns_of(a as int, b as int, c as int, d as int),
{
    let (sa, sb, sc, sd) = (sign_of(a), sign_of(b), sign_of(c), sign_of(d));
    if sa == 0 && sb == 1 && sc == -1 && sd == 0 {
        1
    } else if sa == -1 && sb == 0 && sc == 0 && sd == -1 {
        2
    } else if sa == 0 && sb == -1 && sc == 1 && sd == 0 {
        3
    } else {
        0
    }
}

/// RGB pixels with an opaque alpha byte after each.
pub open spec fn rgba_of(rgb: Seq<u8>) -> Seq<u8>
    decreases rgb.len(),
{
    if rgb.len() < 3 {
        seq![]
    } else {
        seq![rgb[0], rgb[1], rgb[2], 255u8] + rgba_of(rgb.skip(3))
    }
}

/// RGB pixels as RGBA, opaque.
pub fn rgb_to_rgba(rgb: &[u8]) -> (r: Vec<u8>)
    requires
        rgb@.len() % 3 == 0,
    ensures
        r@ == rgba_of(rgb@),
{
    let n = rgb.len();
    let mut out: Vec<u8> = Vec::new();
    let mut i: usize = 0;
    assert(rgb@.skip(0) =~= rgb@);
    assert(out@ + rgba_of(rgb@) =~= rgba_of(rgb@));
    while i < n
        invariant
            n == rgb@.len(),
            n % 3 == 0,
            i % 3 == 0,
            i <= n,
            out@ + rgba_of(rgb@.skip(i as int)) == rgba_of(rgb@),
        decreases n - i,
    {
        let ghost prev = out@;
        assert(rgb@.skip(i as int).skip(3) =~= rgb@.skip(i + 3));
        out.push(rgb[i]);
        out.push(rgb[i + 1]);
        out.push(rgb[i + 2]);
        out.push(255);
        assert(out@ + rgba_of(rgb@.skip(i + 3)) =~= prev + rgba_of(rgb@.skip(i as int)));
        i = i + 3;
    }
    assert(rgba_of(rgb@.skip(n as int)) =~= Seq::<u8>::empty());
    assert(out@ + Seq::<u8>::empty() =~= out@);
    out
}

/// The size a `w`-by-`h` picture is scaled to for a width of at most
/// `target_w`: none when it fits already, else an even width and an even
/// height of at least 2 that keep the aspect.
pub open spec fn scaled_size_of(w: u32, h: u32, target_w: u32) -> Option<(u32, u32)> {
    if target_w >= w {
        None
    } else {
        let tw: int = (target_w / 2) * 2;
        let th: int = (((h as int) * tw / (w as int)) / 2) * 2;
        Some(((if tw > 2 { tw } else { 2 }) as u32, (if th > 2 { th } else { 2 }) as u32))
    }
}

/// The size a picture is scaled to for a given width.
pub fn scaled_size(w: u32, h: u32, target_w: u32) -> (r: Option<(u32, u32)>)
    ensures
        r == scaled_size_of(w, h, target_w),
{
    if target_w >= w {
        return None;
    }
    let tw = (target_w / 2) * 2;
    assert((h as int) * (tw as int) <= 0xFFFF_FFFF * 0xFFFF_FFFF) by (nonlinear_arith)
        requires
            h <= 0xFFFF_FFFF,
            tw <= 0xFFFF_FFFF,
    ;
    let q = (h as u64) * (tw as u64) / (w as u64);
    assert(q <= h && q == (h as int) * (tw as int) / (w as int)) by (nonlinear_arith)
        requires
            tw < w,
            q as int == (h as int) * (tw as int) / (w as int),
            w > 0,
    ;
    let th = ((q as u32) / 2) * 2;
    Some((
        if tw > 2 {
            tw
        } else {
            2
        },
        if th > 2 {
            th
        } else {
            2
        },
    ))
}


// ---------------------------------------------------------------------------
// The two framings agree
// ---------------------------------------------------------------------------

/// A unit's length as the four big-endian bytes AVCC puts before it.
pub open spec fn be_bytes(x: u32) -> Seq<u8> {
    seq![((x >> 24u32) & 0xff) as u8, ((x >> 16u32) & 0xff) as u8, ((x >> 8u32) & 0xff) as u8, (x & 0xff) as u8]
}

/// Units as an AVCC sample: each behind its length.
pub open spec fn avcc(units: Seq<Seq<u8>>) -> Seq<u8>
    decreases units.len(),
{
    if units.len() == 0 {
        seq![]
    } else {
        be_bytes(units[0].len() as u32) + units[0] + avcc(units.drop_first())
    }
}

/// Units as an Annex-B stream: each behind a 4-byte start code.
pub open spec fn annexb(units: Seq<Seq<u8>>) -> Seq<u8>
    decreases units.len(),
{
    if units.len() == 0 {
        seq![]
    } else {
        seq![0u8, 0u8, 0u8, 1u8] + units[0] + annexb(units.drop_first())
    }
}

/// A unit that framing can carry: not empty, its length fits in four
/// bytes, and no 0 0 1 inside it (what an encoder's emulation prevention
/// guarantees).
pub open spec fn framable(n: Seq<u8>) -> bool {
    &&& 0 < n.len() < 0x1_0000_0000
    &&& forall|i: int| 0 <= i && i + 2 < n.len() ==> !(#[trigger] n[i] == 0 && n[i + 1] == 0 && n[i + 2] == 1)
}

proof fn lemma_be_bytes(x: u32)
    ensures
        be32(be_bytes(x), 0) == x,
{
    let b0 = ((x >> 24u32) & 0xff) as u8;
    let b1 = ((x >> 16u32) & 0xff) as u8;
    let b2 = ((x >> 8u32) & 0xff) as u8;
    let b3 = (x & 0xff) as u8;
    assert(b0 as int * 0x100_0000 + b1 as int * 0x1_0000 + b2 as int * 0x100 + b3 as int == x as int) by (bit_vector)
        requires
            b0 == ((x >> 24u32) & 0xff) as u8,
            b1 == ((x >> 16u32) & 0xff) as u8,
            b2 == ((x >> 8u32) & 0xff) as u8,
            b3 == (x & 0xff) as u8,
    ;
}

proof fn lemma_annexb_from_shift(a: Seq<u8>, b: Seq<u8>, i: int)
    requires
        0 <= i,
    ensures
        annexb_from(a + b, a.len() + i) == annexb_from(b, i),
    decreases b.len() - i,
{
    let s = a + b;
    let k = a.len() + i;
    if i + 4 <= b.len() {
        assert(s[k] == b[i] && s[k + 1] == b[i + 1] && s[k + 2] == b[i + 2] && s[k + 3] == b[i + 3]);
        assert(be32(s, k) == be32(b, i));
        let len = be32(b, i);
        if !(len <= 0 || i + 4 + len > b.len()) {
            assert(s.subrange(k + 4, k + 4 + len) =~= b.subrange(i + 4, i + 4 + len));
            lemma_annexb_from_shift(a, b, i + 4 + len);
        }
    }
}

proof fn lemma_avcc_to_annexb(units: Seq<Seq<u8>>)
    requires
        forall|j: int| 0 <= j < units.len() ==> framable(#[trigger] units[j]),
    ensures
        annexb_from(avcc(units), 0) == annexb(units),
    decreases units.len(),
{
    if units.len() > 0 {
        let n = units[0];
        assert(framable(units[0]));
        let rest = units.drop_first();
        assert forall|j: int| 0 <= j < rest.len() implies framable(#[trigger] rest[j]) by {
            assert(rest[j] == units[j + 1]);
        }
        lemma_avcc_to_annexb(rest);
        let x = n.len() as u32;
        assert(x as int == n.len());
        lemma_be_bytes(x);
        let s = avcc(units);
        let head = be_bytes(x) + n;
        assert(s == head + avcc(rest));
        assert(be32(s, 0) == be32(be_bytes(x), 0)) by {
            assert(s[0] == be_bytes(x)[0] && s[1] == be_bytes(x)[1] && s[2] == be_bytes(x)[2] && s[3] == be_bytes(x)[3]);
        }
        assert(s.subrange(4, 4 + n.len() as int) =~= n);
        lemma_annexb_from_shift(head, avcc(rest), 0);
        assert(head.len() + 0 == 4 + n.len());
    }
}

/// The ranges of the units of an Annex-B stream whose first unit starts at
/// `off`.
pub open spec fn ranges_from(units: Seq<Seq<u8>>, off: int) -> Seq<(int, int)>
    decreases units.len(),
{
    if units.len() == 0 {
        seq![]
    } else {
        seq![(off, off + units[0].len())] + ranges_from(units.drop_first(), off + units[0].len() + 4)
    }
}

proof fn lemma_skip_unit(s: Seq<u8>, c4: int, n: Seq<u8>, j: int, more: bool, st: int)
    requires
        framable(n),
        0 <= c4 <= j <= c4 + n.len(),
        s.len() >= c4 + n.len(),
        s.subrange(c4, c4 + n.len()) == n,
        more ==> s.len() >= c4 + n.len() + 4 && s[c4 + n.len()] == 0 && s[c4 + n.len() + 1] == 0
            && s[c4 + n.len() + 2] == 0 && s[c4 + n.len() + 3] == 1,
        !more ==> s.len() == c4 + n.len(),
    ensures
        nal_ranges(s, j, Some(st)) == if more {
            nal_ranges(s, c4 + n.len(), Some(st))
        } else {
            seq![(st, s.len() as int)]
        },
    decreases c4 + n.len() - j,
{
    let e = c4 + n.len();
    if j == e {
    } else if j + 3 > s.len() {
    } else {
        assert(forall|k: int| c4 <= k < e ==> s[k] == #[trigger] n[k - c4]) by {
            assert forall|k: int| c4 <= k < e implies s[k] == #[trigger] n[k - c4] by {
                assert(s.subrange(c4, e)[k - c4] == s[k]);
            }
        }
        let m = j - c4;
        assert(start_code_at(s, j) == 0) by {
            if j + 3 <= e {
                assert(s[j] == n[m] && s[j + 1] == n[m + 1] && s[j + 2] == n[m + 2]);
                assert(!(n[m] == 0 && n[m + 1] == 0 && n[m + 2] == 1));
                if j + 4 <= s.len() && s[j] == 0 && s[j + 1] == 0 && s[j + 2] == 0 && s[j + 3] == 1 {
                    if j + 4 <= e {
                        assert(s[j + 3] == n[m + 3]);
                        assert(!(n[m + 1] == 0 && n[m + 2] == 0 && n[m + 3] == 1));
                    } else {
                        assert(j + 3 == e);
                        assert(more);
                    }
                }
            } else {
                assert(more);
                if j + 2 == e {
                    assert(s[j + 2] == 0);
                    assert(s[j + 3] == 0);
                } else {
                    assert(j + 1 == e);
                    assert(s[j + 2] == 0);
                    assert(j + 3 < s.len() ==> s[j + 3] == 0);
                }
            }
        }
        lemma_skip_unit(s, c4, n, j + 1, more, st);
    }
}

proof fn lemma_scan_from_code(s: Seq<u8>, units: Seq<Seq<u8>>, c: int, st: Option<int>)
    requires
        units.len() > 0,
        forall|j: int| 0 <= j < units.len() ==> framable(#[trigger] units[j]),
        0 <= c,
        s.len() == c + annexb(units).len(),
        s.subrange(c, s.len() as int) == annexb(units),
    ensures
        nal_ranges(s, c, st) == (match st {
            Some(x) => seq![(x, c)],
            None => Seq::<(int, int)>::empty(),
        }) + ranges_from(units, c + 4),
    decreases units.len(),
{
    let n = units[0];
    assert(framable(units[0]));
    let rest = units.drop_first();
    let a = annexb(units);
    assert(a == seq![0u8, 0u8, 0u8, 1u8] + n + annexb(rest));
    assert(forall|k: int| c <= k < s.len() ==> s[k] == #[trigger] a[k - c]) by {
        assert forall|k: int| c <= k < s.len() implies s[k] == #[trigger] a[k - c] by {
            assert(s.subrange(c, s.len() as int)[k - c] == s[k]);
        }
    }
    assert(s[c] == 0 && s[c + 1] == 0 && s[c + 2] == 0 && s[c + 3] == 1) by {
        assert(a[0] == 0 && a[1] == 0 && a[2] == 0 && a[3] == 1);
    }
    assert(start_code_at(s, c) == 4);
    let c4 = c + 4;
    let e = c4 + n.len();
    assert(s.subrange(c4, e) =~= n) by {
        assert forall|k: int| 0 <= k < n.len() implies s.subrange(c4, e)[k] == n[k] by {
            assert(a[4 + k] == n[k]);
        }
    }
    let more = rest.len() > 0;
    if more {
        let ar = annexb(rest);
        assert(ar == seq![0u8, 0u8, 0u8, 1u8] + rest[0] + annexb(rest.drop_first()));
        assert(a[4 + n.len() as int] == ar[0]);
        assert(a[5 + n.len() as int] == ar[1]);
        assert(a[6 + n.len() as int] == ar[2]);
        assert(a[7 + n.len() as int] == ar[3]);
        assert(s[e] == 0 && s[e + 1] == 0 && s[e + 2] == 0 && s[e + 3] == 1);
        lemma_skip_unit(s, c4, n, c4, true, c4);
        assert forall|j: int| 0 <= j < rest.len() implies framable(#[trigger] rest[j]) by {
            assert(rest[j] == units[j + 1]);
        }
        assert(s.subrange(e, s.len() as int) =~= ar) by {
            assert forall|k: int| 0 <= k < ar.len() implies s.subrange(e, s.len() as int)[k] == ar[k] by {
                assert(a[4 + n.len() + k] == ar[k]);
            }
        }
        lemma_scan_from_code(s, rest, e, Some(c4));
    } else {
        assert(annexb(rest) == Seq::<u8>::empty());
        lemma_skip_unit(s, c4, n, c4, false, c4);
        assert(ranges_from(rest, e + 4) == Seq::<(int, int)>::empty());
    }
    let pre = match st {
        Some(x) => seq![(x, c)],
        None => Seq::<(int, int)>::empty(),
    };
    assert(ranges_from(units, c4) == seq![(c4, e)] + ranges_from(rest, e + 4));
    if more {
        assert(pre + (seq![(c4, e)] + ranges_from(rest, e + 4)) =~= pre + seq![(c4, e)] + ranges_from(rest, e + 4));
    } else {
        assert(seq![(c4, e)] + ranges_from(rest, e + 4) =~= seq![(c4, e)]);
    }
}

proof fn lemma_slices(s: Seq<u8>, units: Seq<Seq<u8>>, c: int)
    requires
        0 <= c,
        s.len() == c + annexb(units).len(),
        s.subrange(c, s.len() as int) == annexb(units),
    ensures
        nal_slices(s, ranges_from(units, c + 4)) == units,
    decreases units.len(),
{
    if units.len() == 0 {
        assert(nal_slices(s, ranges_from(units, c + 4)) =~= units);
    } else {
        let n = units[0];
        let rest = units.drop_first();
        let a = annexb(units);
        assert(a == seq![0u8, 0u8, 0u8, 1u8] + n + annexb(rest));
        let e = c + 4 + n.len();
        assert(s.subrange(c + 4, e) =~= n) by {
            assert forall|k: int| 0 <= k < n.len() implies s.subrange(c + 4, e)[k] == n[k] by {
                assert(s.subrange(c, s.len() as int)[4 + k] == a[4 + k]);
            }
        }
        assert(s.subrange(e, s.len() as int) =~= annexb(rest)) by {
            assert forall|k: int| 0 <= k < annexb(rest).len() implies s.subrange(e, s.len() as int)[k] == annexb(rest)[k] by {
                assert(s.subrange(c, s.len() as int)[4 + n.len() + k] == a[4 + n.len() + k]);
            }
        }
        lemma_slices(s, rest, e);
        let rs = ranges_from(units, c + 4);
        assert(rs == seq![(c + 4, e)] + ranges_from(rest, e + 4));
        assert(nal_slices(s, rs) =~= seq![n] + nal_slices(s, ranges_from(rest, e + 4)));
        assert(seq![n] + rest =~= units);
    }
}

/// Framing round trip: units carried as an AVCC sample come out of the
/// Annex-B conversion behind start codes, and splitting that stream gives
/// back the same units, in order.
pub proof fn law_framing_round_trip(units: Seq<Seq<u8>>)
    requires
        forall|j: int| 0 <= j < units.len() ==> framable(#[trigger] units[j]),
    ensures
        annexb_from(avcc(units), 0) == annexb(units),
        nal_slices(annexb(units), nal_ranges(annexb(units), 0, None)) == units,
{
    lemma_avcc_to_annexb(units);
    let s = annexb(units);
    assert(s.subrange(0, s.len() as int) =~= s);
    if units.len() > 0 {
        lemma_scan_from_code(s, units, 0, None);
        assert(Seq::<(int, int)>::empty() + ranges_from(units, 4) =~= ranges_from(units, 4));
        lemma_slices(s, units, 0);
    } else {
        assert(nal_ranges(s, 0, None) == Seq::<(int, int)>::empty());
        assert(nal_slices(s, Seq::<(int, int)>::empty()) =~= units);
    }
}

} // verus!
