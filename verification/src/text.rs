//! Character-level building blocks shared by the text modules: strings as
//! sequences of chars, Unicode whitespace, UTF-8 byte lengths, and decimal
//! digits.
use vstd::prelude::*;
use vstd::utf8::*;

verus! {

broadcast use vstd::string::group_string_axioms;

/// The characters of a string, in order.
pub fn chars_of(s: &str) -> (v: Vec<char>)
    ensures
        v@ == s@,
{
    let mut v: Vec<char> = Vec::new();
    for c in it: s.chars()
        invariant
            v@ == it.seq().take(it.index() as int),
    {
        v.push(c);
    }
    v
}

/// `String: FromIterator<&char>`: the string made of the given chars.
#[verifier::external_body]
pub(crate) fn string_of(v: &Vec<char>) -> (s: String)
    ensures
        s@ == v@,
{
    v.iter().collect()
}

/// Unicode `White_Space`: what `char::is_whitespace`, `str::trim` and the
/// regex class `\s` treat as whitespace.
pub open spec fn is_space(c: char) -> bool {
    let u = c as u32;
    ||| 0x9 <= u <= 0xD
    ||| u == 0x20
    ||| u == 0x85
    ||| u == 0xA0
    ||| u == 0x1680
    ||| 0x2000 <= u <= 0x200A
    ||| u == 0x2028
    ||| u == 0x2029
    ||| u == 0x202F
    ||| u == 0x205F
    ||| u == 0x3000
}

pub fn is_space_char(c: char) -> (r: bool)
    ensures
        r == is_space(c),
{
    let u = c as u32;
    (0x9 <= u && u <= 0xD) || u == 0x20 || u == 0x85 || u == 0xA0 || u == 0x1680 || (0x2000 <= u
        && u <= 0x200A) || u == 0x2028 || u == 0x2029 || u == 0x202F || u == 0x205F || u == 0x3000
}

/// True when no char of `s` is whitespace.
pub open spec fn no_space(s: Seq<char>) -> bool {
    forall|k: int| 0 <= k < s.len() ==> !is_space(#[trigger] s[k])
}

/// True when every char of `s` is whitespace (so `s.trim()` is empty).
pub open spec fn all_space(s: Seq<char>) -> bool {
    forall|k: int| 0 <= k < s.len() ==> is_space(#[trigger] s[k])
}

pub open spec fn is_ascii_digit(c: char) -> bool {
    '0' <= c <= '9'
}

pub open spec fn all_ascii_digits(s: Seq<char>) -> bool {
    forall|k: int| 0 <= k < s.len() ==> is_ascii_digit(#[trigger] s[k])
}

pub open spec fn is_ascii_alnum(c: char) -> bool {
    ||| '0' <= c <= '9'
    ||| 'a' <= c <= 'z'
    ||| 'A' <= c <= 'Z'
}

/// Bytes in the UTF-8 encoding of one char.
pub open spec fn char_len(c: char) -> nat {
    let u = c as u32;
    if u < 0x80 {
        1
    } else if u < 0x800 {
        2
    } else if u < 0x10000 {
        3
    } else {
        4
    }
}

/// Bytes in the UTF-8 encoding of a char sequence: byte offsets into a
/// `str` are `byte_len` of the chars before them.
pub open spec fn byte_len(s: Seq<char>) -> nat
    decreases s.len(),
{
    if s.len() == 0 {
        0
    } else {
        char_len(s[0]) + byte_len(s.drop_first())
    }
}

pub fn char_len_of(c: char) -> (n: usize)
    ensures
        n == char_len(c),
        1 <= n <= 4,
{
    let u = c as u32;
    if u < 0x80 {
        1
    } else if u < 0x800 {
        2
    } else if u < 0x10000 {
        3
    } else {
        4
    }
}

pub proof fn lemma_byte_len_concat(a: Seq<char>, b: Seq<char>)
    ensures
        byte_len(a + b) == byte_len(a) + byte_len(b),
    decreases a.len(),
{
    if a.len() == 0 {
        assert(a + b =~= b);
    } else {
        assert((a + b).drop_first() =~= a.drop_first() + b);
        lemma_byte_len_concat(a.drop_first(), b);
    }
}

pub proof fn lemma_byte_len_push(a: Seq<char>, c: char)
    ensures
        byte_len(a.push(c)) == byte_len(a) + char_len(c),
{
    lemma_byte_len_concat(a, seq![c]);
    assert(a.push(c) =~= a + seq![c]);
    assert(seq![c].drop_first() =~= Seq::<char>::empty());
    assert(byte_len(Seq::<char>::empty()) == 0);
    assert(byte_len(seq![c]) == char_len(seq![c][0]) + byte_len(seq![c].drop_first()));
}

/// `byte_len` is the length of the UTF-8 encoding: it is what `str::len`
/// counts.
pub proof fn lemma_byte_len_is_encoding_len(s: Seq<char>)
    ensures
        byte_len(s) == encode_utf8(s).len(),
    decreases s.len(),
{
    if s.len() > 0 {
        char_is_scalar(s[0]);
        lemma_byte_len_is_encoding_len(s.drop_first());
    }
}

/// Pushes `src[from..to]` onto `out`.
pub fn push_range(out: &mut Vec<char>, src: &Vec<char>, from: usize, to: usize)
    requires
        from <= to <= src@.len(),
    ensures
        final(out)@ == old(out)@ + src@.subrange(from as int, to as int),
{
    let mut i = from;
    while i < to
        invariant
            from <= i <= to <= src@.len(),
            out@ == old(out)@ + src@.subrange(from as int, i as int),
        decreases to - i,
    {
        out.push(src[i]);
        assert(src@.subrange(from as int, i + 1) =~= src@.subrange(from as int, i as int).push(
            src@[i as int],
        ));
        i = i + 1;
    }
}

/// Pushes all of `src` onto `out`.
pub fn push_all(out: &mut Vec<char>, src: &Vec<char>)
    ensures
        final(out)@ == old(out)@ + src@,
{
    push_range(out, src, 0, src.len());
    assert(src@.subrange(0, src@.len() as int) =~= src@);
}

/// The decimal digits of `n`, most significant first, without leading
/// zeros (`"0"` for zero).
pub open spec fn decimal(n: nat) -> Seq<char>
    decreases n,
{
    if n < 10 {
        seq![digit_char(n)]
    } else {
        decimal(n / 10).push(digit_char(n % 10))
    }
}

pub open spec fn digit_char(d: nat) -> char {
    if d == 0 {
        '0'
    } else if d == 1 {
        '1'
    } else if d == 2 {
        '2'
    } else if d == 3 {
        '3'
    } else if d == 4 {
        '4'
    } else if d == 5 {
        '5'
    } else if d == 6 {
        '6'
    } else if d == 7 {
        '7'
    } else if d == 8 {
        '8'
    } else {
        '9'
    }
}

pub fn digit_char_of(d: u64) -> (c: char)
    requires
        d < 10,
    ensures
        c == digit_char(d as nat),
{
    if d == 0 {
        '0'
    } else if d == 1 {
        '1'
    } else if d == 2 {
        '2'
    } else if d == 3 {
        '3'
    } else if d == 4 {
        '4'
    } else if d == 5 {
        '5'
    } else if d == 6 {
        '6'
    } else if d == 7 {
        '7'
    } else if d == 8 {
        '8'
    } else {
        '9'
    }
}

/// Pushes the decimal digits of `n` onto `out`.
pub fn push_decimal(out: &mut Vec<char>, n: u64)
    ensures
        final(out)@ == old(out)@ + decimal(n as nat),
    decreases n,
{
    if n < 10 {
        out.push(digit_char_of(n));
        assert(old(out)@.push(digit_char(n as nat)) =~= old(out)@ + decimal(n as nat));
    } else {
        push_decimal(out, n / 10);
        out.push(digit_char_of(n % 10));
        assert(old(out)@ + decimal(n as nat) =~= old(out)@ + decimal((n / 10) as nat) + seq![
            digit_char((n % 10) as nat),
        ]);
    }
}

/// Character-wise equality of two sequences.
pub fn seq_eq(a: &Vec<char>, b: &Vec<char>) -> (r: bool)
    ensures
        r == (a@ == b@),
{
    if a.len() != b.len() {
        return false;
    }
    let mut i: usize = 0;
    while i < a.len()
        invariant
            a@.len() == b@.len(),
            i <= a@.len(),
            forall|k: int| 0 <= k < i ==> a@[k] == b@[k],
        decreases a.len() - i,
    {
        if a[i] != b[i] {
            return false;
        }
        i = i + 1;
    }
    assert(a@ =~= b@);
    true
}

/// True when `s[at..]` starts with `pat`.
pub open spec fn has_at(s: Seq<char>, at: int, pat: Seq<char>) -> bool {
    0 <= at && at + pat.len() <= s.len() && s.subrange(at, at + pat.len()) == pat
}

pub fn has_at_of(s: &Vec<char>, at: usize, pat: &Vec<char>) -> (r: bool)
    ensures
        r == has_at(s@, at as int, pat@),
{
    if at > s.len() || pat.len() > s.len() - at {
        return false;
    }
    let n = s.len();
    let mut i: usize = 0;
    while i < pat.len()
        invariant
            n == s@.len(),
            at + pat@.len() <= s@.len(),
            at <= s@.len(),
            i <= pat@.len(),
            forall|k: int| 0 <= k < i ==> s@[at + k] == pat@[k],
        decreases pat.len() - i,
    {
        assert(at + i < s@.len());
        if s[at + i] != pat[i] {
            assert(s@.subrange(at as int, at + pat@.len())[i as int] != pat@[i as int]);
            return false;
        }
        i = i + 1;
    }
    assert(s@.subrange(at as int, at + pat@.len()) =~= pat@);
    true
}

/// `s` ends with `suf`.
pub open spec fn ends_with(s: Seq<char>, suf: Seq<char>) -> bool {
    suf.len() <= s.len() && s.subrange(s.len() - suf.len(), s.len() as int) == suf
}

/// `s` starts with `pre`.
pub open spec fn starts_with(s: Seq<char>, pre: Seq<char>) -> bool {
    pre.len() <= s.len() && s.subrange(0, pre.len() as int) == pre
}

pub fn ends_with_of(s: &Vec<char>, suf: &Vec<char>) -> (r: bool)
    ensures
        r == ends_with(s@, suf@),
{
    if suf.len() > s.len() {
        return false;
    }
    has_at_of(s, s.len() - suf.len(), suf)
}

pub fn starts_with_of(s: &Vec<char>, pre: &Vec<char>) -> (r: bool)
    ensures
        r == starts_with(s@, pre@),
{
    has_at_of(s, 0, pre)
}

/// `s` ends with the string `suf`.
pub fn str_ends_with(s: &str, suf: &str) -> (r: bool)
    ensures
        r == ends_with(s@, suf@),
{
    ends_with_of(&chars_of(s), &chars_of(suf))
}

/// `s` starts with the string `pre`.
pub fn str_starts_with(s: &str, pre: &str) -> (r: bool)
    ensures
        r == starts_with(s@, pre@),
{
    starts_with_of(&chars_of(s), &chars_of(pre))
}

/// `s` equals the string `other`.
pub fn str_eq(s: &str, other: &str) -> (r: bool)
    ensures
        r == (s@ == other@),
{
    seq_eq(&chars_of(s), &chars_of(other))
}

/// The position of the first `c` at or after `from`, or the length.
pub open spec fn find_char(s: Seq<char>, c: char, from: int) -> int
    decreases s.len() - from,
{
    if from < 0 || from >= s.len() {
        s.len() as int
    } else if s[from] == c {
        from
    } else {
        find_char(s, c, from + 1)
    }
}

pub proof fn lemma_find_char(s: Seq<char>, c: char, from: int)
    requires
        0 <= from <= s.len(),
    ensures
        from <= find_char(s, c, from) <= s.len(),
        find_char(s, c, from) < s.len() ==> s[find_char(s, c, from)] == c,
        forall|k: int| from <= k < find_char(s, c, from) ==> s[k] != c,
    decreases s.len() - from,
{
    if from < s.len() && s[from] != c {
        lemma_find_char(s, c, from + 1);
    }
}

pub fn find_char_of(s: &Vec<char>, c: char, from: usize) -> (k: usize)
    requires
        from <= s@.len(),
    ensures
        k == find_char(s@, c, from as int),
{
    let n = s.len();
    let mut k = from;
    while k < n && s[k] != c
        invariant
            n == s@.len(),
            from <= k <= n,
            find_char(s@, c, from as int) == find_char(s@, c, k as int),
        decreases n - k,
    {
        k = k + 1;
    }
    k
}

/// `pat` occurs somewhere in `s`.
pub open spec fn contains(s: Seq<char>, pat: Seq<char>) -> bool {
    exists|i: int| #[trigger] has_at(s, i, pat)
}

pub fn contains_of(s: &Vec<char>, pat: &Vec<char>) -> (r: bool)
    ensures
        r == contains(s@, pat@),
{
    let n = s.len();
    let mut i: usize = 0;
    while i < n
        invariant
            n == s@.len(),
            i <= n,
            forall|k: int| 0 <= k < i ==> !#[trigger] has_at(s@, k, pat@),
        decreases n - i,
    {
        if has_at_of(s, i, pat) {
            return true;
        }
        i = i + 1;
    }
    if has_at_of(s, n, pat) {
        return true;
    }
    assert forall|k: int| !#[trigger] has_at(s@, k, pat@) by {
        if 0 <= k && k < n {
        }
    }
    false
}

/// `s` contains the string `pat`.
pub fn str_contains(s: &str, pat: &str) -> (r: bool)
    ensures
        r == contains(s@, pat@),
{
    contains_of(&chars_of(s), &chars_of(pat))
}

/// The first position at or after `from` that is not whitespace, or the
/// length.
pub open spec fn skip_space(s: Seq<char>, from: int) -> int
    decreases s.len() - from,
{
    if from < 0 || from >= s.len() {
        s.len() as int
    } else if is_space(s[from]) {
        skip_space(s, from + 1)
    } else {
        from
    }
}

/// The end of `s[..to]` with its trailing whitespace cut.
pub open spec fn cut_space(s: Seq<char>, to: int) -> int
    decreases to,
{
    if to <= 0 || to > s.len() {
        0
    } else if is_space(s[to - 1]) {
        cut_space(s, to - 1)
    } else {
        to
    }
}

/// `str::trim`: `s` without leading and trailing whitespace.
pub open spec fn trimmed(s: Seq<char>) -> Seq<char> {
    let a = skip_space(s, 0);
    if a >= s.len() {
        seq![]
    } else {
        s.subrange(a, cut_space(s, s.len() as int))
    }
}

pub proof fn lemma_skip_space(s: Seq<char>, from: int)
    requires
        0 <= from <= s.len(),
    ensures
        from <= skip_space(s, from) <= s.len(),
        skip_space(s, from) < s.len() ==> !is_space(s[skip_space(s, from)]),
    decreases s.len() - from,
{
    if from < s.len() && is_space(s[from]) {
        lemma_skip_space(s, from + 1);
    }
}

pub proof fn lemma_cut_space(s: Seq<char>, to: int, a: int)
    requires
        0 <= a < to <= s.len(),
        !is_space(s[a]),
    ensures
        a < cut_space(s, to) <= to,
    decreases to,
{
    if is_space(s[to - 1]) {
        lemma_cut_space(s, to - 1, a);
    }
}

/// `s.trim()`, as chars.
pub fn trim_of(s: &Vec<char>) -> (r: Vec<char>)
    ensures
        r@ == trimmed(s@),
{
    let n = s.len();
    let mut a: usize = 0;
    while a < n && is_space_char(s[a])
        invariant
            n == s@.len(),
            a <= n,
            skip_space(s@, 0) == skip_space(s@, a as int),
        decreases n - a,
    {
        a = a + 1;
    }
    let mut out: Vec<char> = Vec::new();
    if a >= n {
        return out;
    }
    let mut b: usize = n;
    while b > 0 && is_space_char(s[b - 1])
        invariant
            n == s@.len(),
            b <= n,
            cut_space(s@, n as int) == cut_space(s@, b as int),
        decreases b,
    {
        b = b - 1;
    }
    proof {
        lemma_skip_space(s@, 0);
        lemma_cut_space(s@, n as int, a as int);
    }
    push_range(&mut out, s, a, b);
    out
}

} // verus!
