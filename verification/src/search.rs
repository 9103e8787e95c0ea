//! The text side of full-text search: folding (lowercase, Latin accents
//! stripped), the keyed prefix-preserving terms the index stores instead
//! of words, the FTS5 query for a search, how a candidate hit is ranked,
//! and the snippet shown for it.
use vstd::prelude::*;
use hmac::Mac;
use vstd::utf8::encode_utf8;
use crate::text::{
    chars_of, string_of, is_space, is_space_char, push_all, push_range, contains, contains_of, trimmed, trim_of,
};
use crate::i18n::{first_occurrence};
use crate::text::has_at_of;
use crate::unicode::{alnum, is_alnum_char, lowercase, lowercase_of};
use crate::store::{StoredMessage, MessageView, MessageKind};

verus! {

broadcast use vstd::string::group_string_axioms;

/// One search result.
pub struct Hit {
    pub jid: String,
    pub id: String,
    pub ts: i64,
    pub snippet: String,
    pub from_me: bool,
    pub sender: String,
    pub sender_jid: String,
}

/// The base letter of an accented Latin letter (either case), if `c` is one
/// folding knows.
pub open spec fn fold_base(c: char) -> Option<char> {
    if ('\u{C0}' <= c <= '\u{C5}') || ('\u{E0}' <= c <= '\u{E5}') || ('\u{100}' <= c <= '\u{105}') {
        Some('a')
    } else if c == '\u{C7}' || c == '\u{E7}' || c == '\u{106}' || c == '\u{107}' || c == '\u{10C}'
        || c == '\u{10D}' {
        Some('c')
    } else if ('\u{C8}' <= c <= '\u{CB}') || ('\u{E8}' <= c <= '\u{EB}') || c == '\u{112}' || c
        == '\u{113}' || c == '\u{118}' || c == '\u{119}' || c == '\u{11A}' || c == '\u{11B}' {
        Some('e')
    } else if ('\u{CC}' <= c <= '\u{CF}') || ('\u{EC}' <= c <= '\u{EF}') || c == '\u{12A}' || c
        == '\u{12B}' || c == '\u{130}' || c == '\u{131}' {
        Some('i')
    } else if c == '\u{D1}' || c == '\u{F1}' || c == '\u{143}' || c == '\u{144}' || c == '\u{147}'
        || c == '\u{148}' {
        Some('n')
    } else if ('\u{D2}' <= c <= '\u{D6}') || ('\u{F2}' <= c <= '\u{F6}') || c == '\u{D8}' || c
        == '\u{F8}' || c == '\u{14C}' || c == '\u{14D}' || c == '\u{150}' || c == '\u{151}' {
        Some('o')
    } else if ('\u{D9}' <= c <= '\u{DC}') || ('\u{F9}' <= c <= '\u{FC}') || c == '\u{16A}' || c
        == '\u{16B}' || c == '\u{16E}' || c == '\u{16F}' || c == '\u{170}' || c == '\u{171}' {
        Some('u')
    } else if c == '\u{DD}' || c == '\u{FD}' || c == '\u{FF}' || c == '\u{178}' {
        Some('y')
    } else if c == '\u{160}' || c == '\u{161}' || c == '\u{15A}' || c == '\u{15B}' || c == '\u{DF}' {
        Some('s')
    } else if c == '\u{17D}' || c == '\u{17E}' || c == '\u{179}' || c == '\u{17A}' || c == '\u{17B}'
        || c == '\u{17C}' {
        Some('z')
    } else {
        None
    }
}

fn fold_base_exec(c: char) -> (r: Option<char>)
    ensures
        r == fold_base(c),
{
    if ('\u{C0}' <= c && c <= '\u{C5}') || ('\u{E0}' <= c && c <= '\u{E5}') || ('\u{100}' <= c && c
        <= '\u{105}') {
        Some('a')
    } else if c == '\u{C7}' || c == '\u{E7}' || c == '\u{106}' || c == '\u{107}' || c == '\u{10C}'
        || c == '\u{10D}' {
        Some('c')
    } else if ('\u{C8}' <= c && c <= '\u{CB}') || ('\u{E8}' <= c && c <= '\u{EB}') || c == '\u{112}'
        || c == '\u{113}' || c == '\u{118}' || c == '\u{119}' || c == '\u{11A}' || c == '\u{11B}' {
        Some('e')
    } else if ('\u{CC}' <= c && c <= '\u{CF}') || ('\u{EC}' <= c && c <= '\u{EF}') || c == '\u{12A}'
        || c == '\u{12B}' || c == '\u{130}' || c == '\u{131}' {
        Some('i')
    } else if c == '\u{D1}' || c == '\u{F1}' || c == '\u{143}' || c == '\u{144}' || c == '\u{147}'
        || c == '\u{148}' {
        Some('n')
    } else if ('\u{D2}' <= c && c <= '\u{D6}') || ('\u{F2}' <= c && c <= '\u{F6}') || c == '\u{D8}'
        || c == '\u{F8}' || c == '\u{14C}' || c == '\u{14D}' || c == '\u{150}' || c == '\u{151}' {
        Some('o')
    } else if ('\u{D9}' <= c && c <= '\u{DC}') || ('\u{F9}' <= c && c <= '\u{FC}') || c == '\u{16A}'
        || c == '\u{16B}' || c == '\u{16E}' || c == '\u{16F}' || c == '\u{170}' || c == '\u{171}' {
        Some('u')
    } else if c == '\u{DD}' || c == '\u{FD}' || c == '\u{FF}' || c == '\u{178}' {
        Some('y')
    } else if c == '\u{160}' || c == '\u{161}' || c == '\u{15A}' || c == '\u{15B}' || c == '\u{DF}' {
        Some('s')
    } else if c == '\u{17D}' || c == '\u{17E}' || c == '\u{179}' || c == '\u{17A}' || c == '\u{17B}'
        || c == '\u{17C}' {
        Some('z')
    } else {
        None
    }
}

/// An ASCII char lowercased: a capital letter to its small letter, any
/// other char unchanged.
pub open spec fn ascii_lower(c: char) -> char {
    if 'A' <= c <= 'Z' {
        ((c as u32) + 32) as char
    } else {
        c
    }
}

/// One char folded: an accented Latin letter to its base letter, anything
/// else to its lowercase (for an ASCII char, as `char::to_lowercase`
/// documents it, its ASCII lowercase).
pub open spec fn fold_char(c: char) -> Seq<char> {
    match fold_base(c) {
        Some(b) => seq![b],
        None => if (c as u32) < 0x80 {
            seq![ascii_lower(c)]
        } else {
            lowercase(c)
        },
    }
}

/// `s` folded char by char.
pub open spec fn folded(s: Seq<char>) -> Seq<char>
    decreases s.len(),
{
    if s.len() == 0 {
        seq![]
    } else {
        folded(s.drop_last()) + fold_char(s.last())
    }
}

fn fold_chars(v: &Vec<char>) -> (out: Vec<char>)
    ensures
        out@ == folded(v@),
{
    let mut out: Vec<char> = Vec::new();
    let mut i: usize = 0;
    while i < v.len()
        invariant
            i <= v@.len(),
            out@ == folded(v@.take(i as int)),
        decreases v.len() - i,
    {
        let c = v[i];
        match fold_base_exec(c) {
            Some(b) => out.push(b),
            None => {
                let low = lowercase_of(c);
                proof {
                    if (c as u32) < 0x80 {
                        assert(low@ =~= seq![ascii_lower(c)]);
                    }
                }
                push_all(&mut out, &low);
            },
        }
        assert(v@.take(i + 1).drop_last() =~= v@.take(i as int));
        i = i + 1;
    }
    assert(v@.take(v@.len() as int) =~= v@);
    out
}

/// Folding goes char by char: folding two texts joined is folding each and
/// joining the results.
pub proof fn law_fold_distributes_over_joining(a: Seq<char>, b: Seq<char>)
    ensures
        folded(a + b) == folded(a) + folded(b),
    decreases b.len(),
{
    if b.len() == 0 {
        assert(a + b =~= a);
        assert(folded(a) + folded(b) =~= folded(a));
    } else {
        law_fold_distributes_over_joining(a, b.drop_last());
        assert((a + b).drop_last() =~= a + b.drop_last());
        assert((a + b).last() == b.last());
        assert(folded(a) + folded(b.drop_last()) + fold_char(b.last()) =~= folded(a) + (folded(b.drop_last()) + fold_char(b.last())));
    }
}

/// A char folding maps to a single char: ASCII, or a Latin letter it knows.
pub open spec fn folds_to_one(c: char) -> bool {
    (c as u32) < 0x80 || fold_base(c) is Some
}

/// On text made of ASCII and the accented Latin letters folding knows,
/// folding keeps the length and gives lowercase ASCII; on ASCII text it is
/// ASCII lowercasing.
pub proof fn law_fold_of_latin_text(s: Seq<char>)
    requires
        forall|i: int| 0 <= i < s.len() ==> folds_to_one(#[trigger] s[i]),
    ensures
        folded(s).len() == s.len(),
        forall|i: int| 0 <= i < s.len() ==> ((#[trigger] folded(s)[i]) as u32) < 0x80 && !('A' <= folded(s)[i] <= 'Z'),
        (forall|i: int| 0 <= i < s.len() ==> ((#[trigger] s[i]) as u32) < 0x80)
            ==> folded(s) == Seq::new(s.len(), |i: int| ascii_lower(s[i])),
    decreases s.len(),
{
    if s.len() > 0 {
        let p = s.drop_last();
        assert forall|i: int| 0 <= i < p.len() implies folds_to_one(#[trigger] p[i]) by {
            assert(p[i] == s[i]);
        }
        law_fold_of_latin_text(p);
        let c = s.last();
        assert(folds_to_one(c));
        assert(fold_char(c).len() == 1);
        assert(((fold_char(c)[0]) as u32) < 0x80 && !('A' <= fold_char(c)[0] <= 'Z')) by {
            if fold_base(c) is None {
                assert((c as u32) < 0x80);
                if 'A' <= c <= 'Z' {
                    assert(((c as u32) + 32) as char == fold_char(c)[0]);
                }
            }
        }
        assert forall|i: int| 0 <= i < s.len() implies ((#[trigger] folded(s)[i]) as u32) < 0x80 && !('A' <= folded(s)[i] <= 'Z') by {
            if i < p.len() {
                assert(folded(s)[i] == folded(p)[i]);
            } else {
                assert(folded(s)[i] == fold_char(c)[0]);
            }
        }
        if forall|i: int| 0 <= i < s.len() ==> ((#[trigger] s[i]) as u32) < 0x80 {
            assert forall|i: int| 0 <= i < p.len() implies ((#[trigger] p[i]) as u32) < 0x80 by {
                assert(p[i] == s[i]);
            }
            assert((c as u32) < 0x80);
            assert(fold_base(c) is None) by {
                assert((s[s.len() - 1] as u32) < 0x80);
            }
            assert(folded(s) =~= Seq::new(s.len(), |i: int| ascii_lower(s[i])));
        }
    }
}

/// Lowercase with Latin accents folded to their base letter, so "joao"
/// finds "João" and "ACAO" finds "ação".
pub fn fold(text: &str) -> (r: String)
    ensures
        r@ == folded(text@),
{
    string_of(&fold_chars(&chars_of(text)))
}

// ---------------------------------------------------------------------------
// Keyed terms
// ---------------------------------------------------------------------------

/// What HMAC-SHA256 under `key` gives for `data`.
pub uninterp spec fn hmac_sha256(key: Seq<u8>, data: Seq<u8>) -> Seq<u8>;

/// HMAC-SHA256 (crates hmac and sha2): `Hmac::<Sha256>::new_from_slice`,
/// `update`, `finalize`. Claimed: the tag is `hmac_sha256(key, data)` and
/// is 32 bytes long (SHA-256's output size).
#[verifier::external_body]
pub(crate) fn hmac_sha256_of(key: &[u8], data: &[u8]) -> (tag: Vec<u8>)
    ensures
        tag@ == hmac_sha256(key@, data@),
        tag@.len() == 32,
{
    let mut mac = <hmac::Hmac<sha2::Sha256> as Mac>::new_from_slice(key).expect("HMAC accepts any key size");
    mac.update(data);
    mac.finalize().into_bytes().to_vec()
}

/// At most this many leading chars of a word are encoded in its term.
pub const MAX_TERM_CHARS: usize = 24;

/// The base32 alphabet of terms.
pub open spec fn b32(i: int) -> char {
    if 0 <= i < 26 {
        (('a' as u32) + i) as char
    } else {
        (('2' as u32) + (i - 26)) as char
    }
}

fn b32_exec(i: u16) -> (c: char)
    requires
        i < 32,
    ensures
        c == b32(i as int),
{
    let alphabet: [char; 32] = [
        'a', 'b', 'c', 'd', 'e', 'f', 'g', 'h', 'i', 'j', 'k', 'l', 'm', 'n', 'o', 'p', 'q', 'r',
        's', 't', 'u', 'v', 'w', 'x', 'y', 'z', '2', '3', '4', '5', '6', '7',
    ];
    let c = alphabet[i as usize];
    assert(c == b32(i as int)) by {
        assert(alphabet@[i as int] == b32(i as int));
    }
    c
}

/// The two term chars for one char-prefix: 10 bits of its tag, five bits
/// per char.
pub open spec fn tag_chars(tag: Seq<u8>) -> Seq<char> {
    let bits = (tag[0] as int * 256 + tag[1] as int) % 1024;
    seq![b32(bits / 32), b32(bits % 32)]
}

/// The term of a folded word under `key`: for each of its first 24
/// char-prefixes, two chars from the prefix's HMAC tag. So the term of a
/// prefix of a word is a string-prefix of the word's term.
pub open spec fn term_of(key: Seq<u8>, word: Seq<char>, n: int) -> Seq<char>
    decreases n,
{
    if n <= 0 {
        seq![]
    } else {
        term_of(key, word, n - 1) + tag_chars(hmac_sha256(key, encode_utf8(word.take(n))))
    }
}

pub open spec fn word_term(key: Seq<u8>, word: Seq<char>) -> Seq<char> {
    term_of(key, word, if word.len() < MAX_TERM_CHARS { word.len() as int } else { MAX_TERM_CHARS as int })
}

fn tag_chars_exec(out: &mut Vec<char>, tag: &Vec<u8>)
    requires
        tag@.len() == 32,
    ensures
        final(out)@ == old(out)@ + tag_chars(tag@),
{
    let t0 = tag[0];
    let t1 = tag[1];
    let x: u16 = ((t0 as u16) << 8u16) | (t1 as u16);
    let bits: u16 = x & 0x3ff;
    assert(x == (t0 as u16) * 256 + (t1 as u16)) by (bit_vector)
        requires
            x == ((t0 as u16) << 8u16) | (t1 as u16),
    ;
    assert(bits == x % 1024) by (bit_vector)
        requires
            bits == x & 0x3ff,
    ;
    let hi = bits >> 5u16;
    let lo = bits & 0x1f;
    assert(hi == bits / 32 && lo == bits % 32) by (bit_vector)
        requires
            hi == bits >> 5u16,
            lo == bits & 0x1f,
    ;
    out.push(b32_exec(hi));
    out.push(b32_exec(lo));
}

/// The term of `word` under `key`.
fn term_exec(key: &[u8], word: &Vec<char>) -> (r: Vec<char>)
    ensures
        r@ == word_term(key@, word@),
{
    let m = if word.len() < MAX_TERM_CHARS {
        word.len()
    } else {
        MAX_TERM_CHARS
    };
    let mut out: Vec<char> = Vec::new();
    let mut prefix: Vec<char> = Vec::new();
    let mut i: usize = 0;
    while i < m
        invariant
            i <= m <= word@.len(),
            m == (if word@.len() < MAX_TERM_CHARS { word@.len() as int } else { MAX_TERM_CHARS as int }),
            prefix@ == word@.take(i as int),
            out@ == term_of(key@, word@, i as int),
        decreases m - i,
    {
        prefix.push(word[i]);
        assert(prefix@ =~= word@.take(i + 1));
        let ps = string_of(&prefix);
        let bytes = ps.as_str().as_bytes();
        let tag = hmac_sha256_of(key, bytes);
        tag_chars_exec(&mut out, &tag);
        i = i + 1;
    }
    out
}

/// The end of the run of chars from `from` that `alnum` says
/// `want` about.
pub open spec fn run_end(s: Seq<char>, from: int, want: bool) -> int
    decreases s.len() - from,
{
    if from < 0 || from >= s.len() {
        s.len() as int
    } else if alnum(s[from]) == want {
        run_end(s, from + 1, want)
    } else {
        from
    }
}

pub proof fn lemma_run_end(s: Seq<char>, from: int, want: bool)
    requires
        0 <= from <= s.len(),
    ensures
        from <= run_end(s, from, want) <= s.len(),
        run_end(s, from, want) < s.len() ==> alnum(s[run_end(s, from, want)]) != want,
    decreases s.len() - from,
{
    if from < s.len() && alnum(s[from]) == want {
        lemma_run_end(s, from + 1, want);
    }
}

/// The words of `s` from `p`: maximal runs of alphanumeric chars.
pub open spec fn alnum_words(s: Seq<char>, p: int) -> Seq<Seq<char>>
    decreases s.len() + 1 - p,
{
    if p < 0 || p > s.len() {
        seq![]
    } else {
        let a = run_end(s, p, false);
        proof {
            lemma_run_end(s, p, false);
        }
        if a >= s.len() {
            seq![]
        } else {
            let b = run_end(s, a, true);
            proof {
                lemma_run_end(s, a, true);
            }
            seq![s.subrange(a, b)] + alnum_words(s, b)
        }
    }
}

/// Items joined with single spaces.
pub open spec fn joined(items: Seq<Seq<char>>) -> Seq<char>
    decreases items.len(),
{
    if items.len() == 0 {
        seq![]
    } else if items.len() == 1 {
        items[0]
    } else {
        items[0] + seq![' '] + joined(items.drop_first())
    }
}

/// The index column of a folded body: every word's term, space-separated
/// (repeats kept, so phrase queries see the real word count).
pub open spec fn terms_text(key: Seq<u8>, norm: Seq<char>) -> Seq<char> {
    joined(alnum_words(norm, 0).map_values(|w: Seq<char>| word_term(key, w)))
}

proof fn lemma_joined_push(items: Seq<Seq<char>>, x: Seq<char>)
    ensures
        joined(items.push(x)) == if items.len() == 0 {
            x
        } else {
            joined(items) + seq![' '] + x
        },
    decreases items.len(),
{
    assert(joined(seq![x]) == x);
    if items.len() == 0 {
        assert(items.push(x) =~= seq![x]);
    } else if items.len() == 1 {
        assert(items.push(x).drop_first() =~= seq![x]);
        assert(items.push(x)[0] == items[0]);
    } else {
        assert(items.push(x).drop_first() =~= items.drop_first().push(x));
        assert(items.push(x)[0] == items[0]);
        lemma_joined_push(items.drop_first(), x);
        assert(joined(items) + seq![' '] + x =~= items[0] + seq![' '] + (joined(items.drop_first())
            + seq![' '] + x));
    }
}

/// The terms of every word of a folded body, space-separated, for the
/// index's terms column.
pub fn terms_of(key: &[u8], norm: &str) -> (r: String)
    ensures
        r@ == terms_text(key@, norm@),
{
    let s = chars_of(norm);
    let n = s.len();
    let mut out: Vec<char> = Vec::new();
    let mut count: usize = 0;
    let ghost mut done: Seq<Seq<char>> = seq![];
    let mut p: usize = 0;
    loop
        invariant_except_break
            n == s@.len(),
            p <= n,
            done + alnum_words(s@, p as int) == alnum_words(s@, 0),
            out@ == joined(done.map_values(|w: Seq<char>| word_term(key@, w))),
            count == done.len(),
            count <= n,
            p >= count,
        ensures
            out@ == joined(alnum_words(s@, 0).map_values(|w: Seq<char>| word_term(key@, w))),
        decreases n + 1 - p,
    {
        let mut a = p;
        while a < n && !is_alnum_char(s[a])
            invariant
                n == s@.len(),
                p <= a <= n,
                run_end(s@, p as int, false) == run_end(s@, a as int, false),
            decreases n - a,
        {
            a = a + 1;
        }
        proof {
            lemma_run_end(s@, p as int, false);
        }
        if a >= n {
            assert(alnum_words(s@, p as int) =~= Seq::<Seq<char>>::empty());
            assert(done =~= alnum_words(s@, 0));
            break;
        }
        let mut b = a;
        while b < n && is_alnum_char(s[b])
            invariant
                n == s@.len(),
                a <= b <= n,
                run_end(s@, a as int, true) == run_end(s@, b as int, true),
            decreases n - b,
        {
            b = b + 1;
        }
        proof {
            lemma_run_end(s@, a as int, true);
        }
        let mut word: Vec<char> = Vec::new();
        push_range(&mut word, &s, a, b);
        let t = term_exec(key, &word);
        let ghost prev = done;
        if count > 0 {
            out.push(' ');
        }
        push_all(&mut out, &t);
        proof {
            done = prev.push(word@);
            assert(done.map_values(|w: Seq<char>| word_term(key@, w)) =~= prev.map_values(|w: Seq<char>| word_term(key@, w)).push(word_term(key@, word@)));
            lemma_joined_push(prev.map_values(|w: Seq<char>| word_term(key@, w)), word_term(key@, word@));
            assert(alnum_words(s@, p as int) =~= seq![word@] + alnum_words(s@, b as int));
            assert(done + alnum_words(s@, b as int) =~= prev + alnum_words(s@, p as int));
            if b == a {
                assert(false);
            }
        }
        count = count + 1;
        p = b;
    }
    string_of(&out)
}

// ---------------------------------------------------------------------------
// Queries and ranking
// ---------------------------------------------------------------------------

/// `str::split_whitespace`: the maximal runs of non-whitespace chars.
pub open spec fn space_run_end(s: Seq<char>, from: int, want: bool) -> int
    decreases s.len() - from,
{
    if from < 0 || from >= s.len() {
        s.len() as int
    } else if is_space(s[from]) == want {
        space_run_end(s, from + 1, want)
    } else {
        from
    }
}

pub proof fn lemma_space_run_end(s: Seq<char>, from: int, want: bool)
    requires
        0 <= from <= s.len(),
    ensures
        from <= space_run_end(s, from, want) <= s.len(),
        space_run_end(s, from, want) < s.len() ==> is_space(s[space_run_end(s, from, want)]) != want,
    decreases s.len() - from,
{
    if from < s.len() && is_space(s[from]) == want {
        lemma_space_run_end(s, from + 1, want);
    }
}

pub open spec fn space_words(s: Seq<char>, p: int) -> Seq<Seq<char>>
    decreases s.len() + 1 - p,
{
    if p < 0 || p > s.len() {
        seq![]
    } else {
        let a = space_run_end(s, p, true);
        proof {
            lemma_space_run_end(s, p, true);
        }
        if a >= s.len() {
            seq![]
        } else {
            let b = space_run_end(s, a, false);
            proof {
                lemma_space_run_end(s, a, false);
            }
            seq![s.subrange(a, b)] + space_words(s, b)
        }
    }
}

/// The whitespace-separated words of `s`.
pub(crate) fn space_words_exec(s: &Vec<char>) -> (ws: Vec<Vec<char>>)
    ensures
        ws@.map_values(|v: Vec<char>| v@) == space_words(s@, 0),
{
    let n = s.len();
    let mut ws: Vec<Vec<char>> = Vec::new();
    let mut p: usize = 0;
    loop
        invariant_except_break
            n == s@.len(),
            p <= n,
            ws@.map_values(|v: Vec<char>| v@) + space_words(s@, p as int) == space_words(s@, 0),
        ensures
            ws@.map_values(|v: Vec<char>| v@) == space_words(s@, 0),
        decreases n + 1 - p,
    {
        let mut a = p;
        while a < n && is_space_char(s[a])
            invariant
                n == s@.len(),
                p <= a <= n,
                space_run_end(s@, p as int, true) == space_run_end(s@, a as int, true),
            decreases n - a,
        {
            a = a + 1;
        }
        proof {
            lemma_space_run_end(s@, p as int, true);
        }
        if a >= n {
            assert(space_words(s@, p as int) =~= Seq::<Seq<char>>::empty());
            assert(ws@.map_values(|v: Vec<char>| v@) =~= space_words(s@, 0));
            break;
        }
        let mut b = a;
        while b < n && !is_space_char(s[b])
            invariant
                n == s@.len(),
                a <= b <= n,
                space_run_end(s@, a as int, false) == space_run_end(s@, b as int, false),
            decreases n - b,
        {
            b = b + 1;
        }
        proof {
            lemma_space_run_end(s@, a as int, false);
        }
        let mut word: Vec<char> = Vec::new();
        push_range(&mut word, s, a, b);
        let ghost prev = ws@.map_values(|v: Vec<char>| v@);
        ws.push(word);
        assert(ws@.map_values(|v: Vec<char>| v@) =~= prev.push(s@.subrange(a as int, b as int)));
        assert(space_words(s@, p as int) =~= seq![s@.subrange(a as int, b as int)] + space_words(
            s@,
            b as int,
        ));
        assert(ws@.map_values(|v: Vec<char>| v@) + space_words(s@, b as int) =~= prev
            + space_words(s@, p as int));
        p = b;
    }
    ws
}

/// One word of an FTS5 query: its term quoted, with `*` when it matches as
/// a prefix.
pub open spec fn query_word(key: Seq<u8>, w: Seq<char>, prefix: bool) -> Seq<char> {
    seq!['"'] + word_term(key, w) + seq!['"'] + if prefix {
        seq!['*']
    } else {
        seq![]
    }
}

/// The FTS5 match expression for a query, if it has any word: every folded
/// word must appear, and the last one also matches as a prefix unless the
/// query ends in whitespace (a trailing space closes the word).
pub open spec fn fts_query_of(key: Seq<u8>, query: Seq<char>) -> Option<Seq<char>> {
    let phrase = folded(trimmed(query));
    let ws = space_words(phrase, 0);
    let prefix_last = !(query.len() > 0 && is_space(query.last()));
    if phrase.len() == 0 {
        None
    } else {
        Some(
            and_joined(
                Seq::new(
                    ws.len(),
                    |i: int| query_word(key, ws[i], prefix_last && i + 1 == ws.len()),
                ),
            ),
        )
    }
}

/// Items joined with " AND ".
pub open spec fn and_joined(items: Seq<Seq<char>>) -> Seq<char>
    decreases items.len(),
{
    if items.len() == 0 {
        seq![]
    } else if items.len() == 1 {
        items[0]
    } else {
        items[0] + seq![' ', 'A', 'N', 'D', ' '] + and_joined(items.drop_first())
    }
}

proof fn lemma_and_joined_push(items: Seq<Seq<char>>, x: Seq<char>)
    ensures
        and_joined(items.push(x)) == if items.len() == 0 {
            x
        } else {
            and_joined(items) + seq![' ', 'A', 'N', 'D', ' '] + x
        },
    decreases items.len(),
{
    assert(and_joined(seq![x]) == x);
    if items.len() == 0 {
        assert(items.push(x) =~= seq![x]);
    } else if items.len() == 1 {
        assert(items.push(x).drop_first() =~= seq![x]);
        assert(items.push(x)[0] == items[0]);
    } else {
        assert(items.push(x).drop_first() =~= items.drop_first().push(x));
        assert(items.push(x)[0] == items[0]);
        lemma_and_joined_push(items.drop_first(), x);
        assert(and_joined(items) + seq![' ', 'A', 'N', 'D', ' '] + x =~= items[0] + seq![' ', 'A', 'N', 'D', ' ']
            + (and_joined(items.drop_first()) + seq![' ', 'A', 'N', 'D', ' '] + x));
    }
}

/// The FTS5 match expression for a search query under the index key, or
/// nothing when the query has no word.
pub fn fts_query(key: &[u8], query: &str) -> (r: Option<String>)
    ensures
        match fts_query_of(key@, query@) {
            Some(e) => r matches Some(s) && s@ == e,
            None => r is None,
        },
{
    let q = chars_of(query);
    let phrase = fold_chars(&trim_of(&q));
    if phrase.len() == 0 {
        return None;
    }
    let prefix_last = !(q.len() > 0 && is_space_char(q[q.len() - 1]));
    let ws = space_words_exec(&phrase);
    let ghost wv = ws@.map_values(|v: Vec<char>| v@);
    let ghost items = Seq::new(
        wv.len(),
        |i: int| query_word(key@, wv[i], prefix_last && i + 1 == wv.len()),
    );
    let mut out: Vec<char> = Vec::new();
    let mut i: usize = 0;
    while i < ws.len()
        invariant
            i <= ws@.len(),
            wv == ws@.map_values(|v: Vec<char>| v@),
            items == Seq::new(
                wv.len(),
                |i: int| query_word(key@, wv[i], prefix_last && i + 1 == wv.len()),
            ),
            out@ == and_joined(items.take(i as int)),
        decreases ws.len() - i,
    {
        let ghost prev = out@;
        if i > 0 {
            out.push(' ');
            out.push('A');
            out.push('N');
            out.push('D');
            out.push(' ');
        }
        out.push('"');
        let t = term_exec(key, &ws[i]);
        push_all(&mut out, &t);
        out.push('"');
        if prefix_last && i + 1 == ws.len() {
            out.push('*');
        }
        proof {
            assert(items.take(i + 1) =~= items.take(i as int).push(items[i as int]));
            lemma_and_joined_push(items.take(i as int), items[i as int]);
            assert(out@ =~= and_joined(items.take(i + 1)));
        }
        i = i + 1;
    }
    assert(items.take(ws@.len() as int) =~= items);
    Some(string_of(&out))
}

/// How a verified candidate ranks: 2 when the folded body holds the whole
/// phrase, 1 when it holds every word of a query of several words, and not
/// at all otherwise.
pub open spec fn rank_of_spec(norm: Seq<char>, phrase: Seq<char>, words: Seq<Seq<char>>) -> Option<u8> {
    if contains(norm, phrase) {
        Some(2)
    } else if words.len() > 1 && forall|i: int| 0 <= i < words.len() ==> contains(norm, #[trigger] words[i]) {
        Some(1)
    } else {
        None
    }
}

/// A hit holding the whole phrase ranks 2; one without it ranks 1 only for
/// a query of several words every one of which it holds; anything else is
/// no hit at all.
pub proof fn law_rank_needs_the_phrase_or_every_word(norm: Seq<char>, phrase: Seq<char>, words: Seq<Seq<char>>)
    ensures
        contains(norm, phrase) ==> rank_of_spec(norm, phrase, words) == Some(2u8),
        rank_of_spec(norm, phrase, words) == Some(1u8) ==> words.len() > 1 && !contains(norm, phrase)
            && forall|i: int| 0 <= i < words.len() ==> contains(norm, #[trigger] words[i]),
        !contains(norm, phrase) && words.len() > 1 && (forall|i: int| 0 <= i < words.len() ==> contains(norm, #[trigger] words[i]))
            ==> rank_of_spec(norm, phrase, words) == Some(1u8),
        (exists|i: int| 0 <= i < words.len() && !contains(norm, #[trigger] words[i])) && !contains(norm, phrase)
            ==> rank_of_spec(norm, phrase, words) is None,
        rank_of_spec(norm, phrase, words) is None <==> !contains(norm, phrase) && (words.len() <= 1
            || exists|i: int| 0 <= i < words.len() && !contains(norm, #[trigger] words[i])),
{
}

/// The rank of a candidate whose folded body is `norm`, for the folded
/// query `phrase` and its words.
pub fn rank_of(norm: &str, phrase: &str, words: &[&str]) -> (r: Option<u8>)
    ensures
        r == rank_of_spec(norm@, phrase@, words@.map_values(|w: &str| w@)),
        contains(norm@, phrase@) ==> r == Some(2u8),
        r == Some(1u8) ==> words@.len() > 1 && !contains(norm@, phrase@)
            && forall|i: int| 0 <= i < words@.len() ==> contains(norm@, (#[trigger] words@[i])@),
        r is None <==> !contains(norm@, phrase@) && (words@.len() <= 1
            || exists|i: int| 0 <= i < words@.len() && !contains(norm@, (#[trigger] words@[i])@)),
{
    proof {
        law_rank_needs_the_phrase_or_every_word(norm@, phrase@, words@.map_values(|w: &str| w@));
        assert forall|i: int| 0 <= i < words@.len() implies (#[trigger] words@[i])@ == words@.map_values(|w: &str| w@)[i] by {}
    }
    let nv = chars_of(norm);
    if contains_of(&nv, &chars_of(phrase)) {
        return Some(2);
    }
    let ghost wv = words@.map_values(|w: &str| w@);
    if words.len() <= 1 {
        return None;
    }
    let mut i: usize = 0;
    while i < words.len()
        invariant
            i <= words@.len(),
            wv == words@.map_values(|w: &str| w@),
            forall|k: int| 0 <= k < i ==> contains(nv@, #[trigger] wv[k]),
            nv@ == norm@,
            !contains(norm@, phrase@),
            words@.len() > 1,
        decreases words.len() - i,
    {
        if !contains_of(&nv, &chars_of(words[i])) {
            assert(!contains(norm@, wv[i as int]));
            return None;
        }
        i = i + 1;
    }
    Some(1)
}

/// How many candidates to fetch for `limit` results: four times as many,
/// at least `limit` (and at least one), at most 2000.
pub open spec fn fetch_count_of(limit: nat) -> int {
    let want: int = if limit * 4 > usize::MAX { usize::MAX as int } else { (limit * 4) as int };
    let lo = if limit > 1 { limit as int } else { 1 };
    if want < lo { lo } else if want > 2000 { 2000 } else { want }
}

/// Candidates fetched for `limit` results (the limit may not pass 2000:
/// the clamp would have its bounds crossed).
pub fn fetch_count(limit: usize) -> (r: i64)
    requires
        limit <= 2000,
    ensures
        r == fetch_count_of(limit as nat),
        limit == 0 ==> r == 1,
        limit > 0 ==> r == if 4 * limit <= 2000 { 4 * limit } else { 2000 },
{
    let want = limit * 4;
    let lo = if limit > 1 {
        limit
    } else {
        1
    };
    let c = if want < lo {
        lo
    } else if want > 2000 {
        2000
    } else {
        want
    };
    c as i64
}

// ---------------------------------------------------------------------------
// Laws
// ---------------------------------------------------------------------------

proof fn lemma_term_of_len(key: Seq<u8>, word: Seq<char>, n: int)
    requires
        n >= 0,
    ensures
        term_of(key, word, n).len() == 2 * n,
    decreases n,
{
    if n > 0 {
        lemma_term_of_len(key, word, n - 1);
    }
}

proof fn lemma_term_of_prefix(key: Seq<u8>, word: Seq<char>, k: int, m: int)
    requires
        0 <= k <= m,
    ensures
        term_of(key, word, m).take(2 * k) == term_of(key, word, k),
    decreases m - k,
{
    lemma_term_of_len(key, word, k);
    lemma_term_of_len(key, word, m);
    if k < m {
        lemma_term_of_prefix(key, word, k, m - 1);
        lemma_term_of_len(key, word, m - 1);
        assert(term_of(key, word, m).take(2 * k) =~= term_of(key, word, m - 1).take(2 * k));
    } else {
        assert(term_of(key, word, m).take(2 * k) =~= term_of(key, word, k));
    }
}

proof fn lemma_term_of_take(key: Seq<u8>, word: Seq<char>, n: int, k: int)
    requires
        0 <= k <= n <= word.len(),
    ensures
        term_of(key, word.take(n), k) == term_of(key, word, k),
    decreases k,
{
    if k > 0 {
        lemma_term_of_take(key, word, n, k - 1);
        assert(word.take(n).take(k) =~= word.take(k));
    }
}

/// The term of a prefix of a word is a string-prefix of the word's term:
/// this is what lets a prefix query ("reuni*") find "reuniao" in the index.
pub proof fn law_term_of_prefix_is_prefix(key: Seq<u8>, word: Seq<char>, n: int)
    requires
        0 <= n <= word.len(),
    ensures
        word_term(key, word).take(word_term(key, word.take(n)).len() as int) == word_term(key, word.take(n)),
{
    let kn = if n < MAX_TERM_CHARS {
        n
    } else {
        MAX_TERM_CHARS as int
    };
    let kw = if word.len() < MAX_TERM_CHARS {
        word.len() as int
    } else {
        MAX_TERM_CHARS as int
    };
    assert(word.take(n).len() == n);
    lemma_term_of_take(key, word, n, kn);
    lemma_term_of_len(key, word, kn);
    lemma_term_of_prefix(key, word, kn, kw);
}

/// How many characters a snippet shows on each side of the match.
pub const SNIPPET_RADIUS: usize = 40;

/// Where a snippet's window starts in the text: 40 characters before the
/// first match of `word` in the folded body (the folding keeps one char
/// per char, so a position in one is a position in the other); at the
/// start when there is no match.
pub open spec fn snippet_at(norm: Seq<char>, word: Seq<char>) -> int {
    let f = first_occurrence(norm, word, 0);
    if f < 0 { 0 } else { f }
}

pub open spec fn snippet_start(norm: Seq<char>, word: Seq<char>) -> int {
    let at = snippet_at(norm, word);
    if at > SNIPPET_RADIUS { at - SNIPPET_RADIUS } else { 0 }
}

pub open spec fn snippet_end(text: Seq<char>, norm: Seq<char>, word: Seq<char>) -> int {
    let e = snippet_at(norm, word) + word.len() + SNIPPET_RADIUS;
    if e < text.len() { e } else { text.len() as int }
}

/// A window of the text around the first match, with an ellipsis where it
/// was cut and its runs of white space made single spaces.
pub open spec fn snippet_text(text: Seq<char>, norm: Seq<char>, word: Seq<char>) -> Seq<char> {
    let start = snippet_start(norm, word);
    let end = snippet_end(text, norm, word);
    let w = (if start > 0 { seq!['\u{2026}'] } else { seq![] }) + text.subrange(start, end) + (if end
        < text.len() {
        seq!['\u{2026}']
    } else {
        seq![]
    });
    joined(space_words(w, 0))
}

/// Where the first match of a word starts in a folded body, in chars (0
/// when there is none).
fn match_start(nv: &Vec<char>, wv: &Vec<char>) -> (at: usize)
    ensures
        at == snippet_at(nv@, wv@),
        at <= nv@.len(),
{
    let n = nv.len();
    let mut i: usize = 0;
    while i < n && !has_at_of(nv, i, wv)
        invariant
            n == nv@.len(),
            i <= n,
            first_occurrence(nv@, wv@, 0) == first_occurrence(nv@, wv@, i as int),
        decreases n - i,
    {
        i = i + 1;
    }
    if i < n || has_at_of(nv, n, wv) {
        i
    } else {
        assert(first_occurrence(nv@, wv@, n + 1) == -1);
        0
    }
}

/// Whether a snippet's window fits the text: it starts no later than it
/// ends (which fails only when the text is shorter than its folded body).
pub fn snippet_fits(text: &str, norm: &str, word: &str) -> (r: bool)
    requires
        norm@.len() + word@.len() + SNIPPET_RADIUS <= usize::MAX,
    ensures
        r == (snippet_start(norm@, word@) <= snippet_end(text@, norm@, word@)),
{
    let nv = chars_of(norm);
    let wv = chars_of(word);
    let at = match_start(&nv, &wv);
    let n = chars_of(text).len();
    let start = if at > SNIPPET_RADIUS { at - SNIPPET_RADIUS } else { 0 };
    let e = at + wv.len() + SNIPPET_RADIUS;
    let end = if e < n { e } else { n };
    start <= end
}

/// The snippet shown for a search hit (the window must not start past the
/// end of the text).
pub fn snippet(text: &str, norm: &str, word: &str) -> (r: String)
    requires
        snippet_start(norm@, word@) <= snippet_end(text@, norm@, word@),
        norm@.len() + word@.len() + SNIPPET_RADIUS <= usize::MAX,
    ensures
        r@ == snippet_text(text@, norm@, word@),
{
    let nv = chars_of(norm);
    let wv = chars_of(word);
    let at = match_start(&nv, &wv);
    let chars = chars_of(text);
    let start = if at > SNIPPET_RADIUS { at - SNIPPET_RADIUS } else { 0 };
    let e = at + wv.len() + SNIPPET_RADIUS;
    let end = if e < chars.len() { e } else { chars.len() };
    let mut out: Vec<char> = Vec::new();
    if start > 0 {
        out.push('\u{2026}');
    }
    push_range(&mut out, &chars, start, end);
    if end < chars.len() {
        out.push('\u{2026}');
    }
    let ghost w = out@;
    assert(w =~= (if start > 0 { seq!['\u{2026}'] } else { Seq::<char>::empty() }) + text@.subrange(
        start as int,
        end as int,
    ) + (if end < text@.len() {
        seq!['\u{2026}']
    } else {
        Seq::<char>::empty()
    }));
    let ws = space_words_exec(&out);
    let mut joined_v: Vec<char> = Vec::new();
    let k = ws.len();
    let mut j: usize = 0;
    let ghost all = ws@.map_values(|v: Vec<char>| v@);
    while j < k
        invariant
            k == ws@.len(),
            all == ws@.map_values(|v: Vec<char>| v@),
            j <= k,
            joined_v@ == joined(all.take(j as int)),
        decreases k - j,
    {
        proof {
            lemma_joined_push(all.take(j as int), all[j as int]);
            assert(all.take(j + 1) =~= all.take(j as int).push(all[j as int]));
        }
        if j > 0 {
            joined_v.push(' ');
        }
        push_all(&mut joined_v, &ws[j]);
        j = j + 1;
    }
    assert(all.take(k as int) =~= all);
    string_of(&joined_v)
}

/// The index term of a folded word under the index key.
pub fn term(key: &[u8], word: &str) -> (r: String)
    ensures
        r@ == word_term(key@, word@),
{
    let v = chars_of(word);
    string_of(&term_exec(key, &v))
}

// ---------------------------------------------------------------------------
// What the index holds
// ---------------------------------------------------------------------------

/// The text of a message the index holds (its text, caption or file
/// name, as every rendering shows it); none for a deleted or blank message
/// or a voice note.
pub open spec fn indexable_text(m: MessageView) -> Option<Seq<char>> {
    if m.deleted || trimmed(m.text).len() == 0 {
        None
    } else {
        match m.kind {
            MessageKind::Audio => None,
            _ => Some(m.text),
        }
    }
}

/// The text of a message the index holds, if any.
pub fn indexable(m: &StoredMessage) -> (r: Option<String>)
    ensures
        match indexable_text(m@) {
            Some(t) => r matches Some(x) && x@ == t,
            None => r is None,
        },
{
    if m.deleted || trim_of(&chars_of(m.text.as_str())).len() == 0 {
        return None;
    }
    match m.kind {
        MessageKind::Audio => None,
        _ => Some(m.text.clone()),
    }
}


/// How many messages of one chat the index keeps: the newest ones.
pub const PER_CHAT_MAX: usize = 300;

/// The messages of `s` that have indexable text, in order.
pub open spec fn with_text(s: Seq<MessageView>) -> Seq<MessageView>
    decreases s.len(),
{
    if s.len() == 0 {
        seq![]
    } else {
        let rest = with_text(s.drop_last());
        if indexable_text(s.last()) is Some {
            rest.push(s.last())
        } else {
            rest
        }
    }
}

/// What rebuilding one chat's index writes, from its messages oldest
/// first: those with indexable text, only the last `PER_CHAT_MAX`.
pub open spec fn rebuilt(s: Seq<MessageView>) -> Seq<MessageView> {
    let w = with_text(s);
    if w.len() > PER_CHAT_MAX {
        w.skip(w.len() - PER_CHAT_MAX)
    } else {
        w
    }
}

/// The messages a rebuild of one chat's index writes, oldest first.
pub fn to_rebuild(messages: &[StoredMessage]) -> (r: Vec<&StoredMessage>)
    ensures
        r@.map_values(|m: &StoredMessage| m@) == rebuilt(messages@.map_values(|m: StoredMessage| m@)),
{
    let ghost all = messages@.map_values(|m: StoredMessage| m@);
    let n = messages.len();
    let mut kept: Vec<&StoredMessage> = Vec::new();
    let mut i: usize = 0;
    while i < n
        invariant
            n == messages@.len(),
            all == messages@.map_values(|m: StoredMessage| m@),
            i <= n,
            kept@.map_values(|m: &StoredMessage| m@) == with_text(all.take(i as int)),
        decreases n - i,
    {
        assert(all.take(i + 1).drop_last() =~= all.take(i as int));
        assert(all.take(i + 1).last() == messages@[i as int]@);
        let m = &messages[i];
        if indexable(m).is_some() {
            let ghost before = kept@;
            kept.push(m);
            assert(kept@.map_values(|x: &StoredMessage| x@) =~= before.map_values(|x: &StoredMessage| x@).push(m@));
        }
        i = i + 1;
    }
    assert(all.take(n as int) =~= all);
    let ghost w = kept@.map_values(|m: &StoredMessage| m@);
    if kept.len() <= PER_CHAT_MAX {
        return kept;
    }
    let from = kept.len() - PER_CHAT_MAX;
    let mut out: Vec<&StoredMessage> = Vec::new();
    let mut j: usize = from;
    while j < kept.len()
        invariant
            from <= j <= kept@.len(),
            w == kept@.map_values(|m: &StoredMessage| m@),
            out@.map_values(|m: &StoredMessage| m@) == w.subrange(from as int, j as int),
        decreases kept@.len() - j,
    {
        let ghost before = out@;
        out.push(kept[j]);
        assert(out@.map_values(|x: &StoredMessage| x@) =~= before.map_values(|x: &StoredMessage| x@).push(w[j as int]));
        assert(w.subrange(from as int, j + 1) =~= w.subrange(from as int, j as int).push(w[j as int]));
        j = j + 1;
    }
    assert(w.subrange(from as int, kept@.len() as int) =~= w.skip(from as int));
    out
}


/// `a` goes strictly before `b` among search results: a higher rank, or
/// the same rank and a newer message.
pub open spec fn ranks_before(a: (u8, Hit), b: (u8, Hit)) -> bool {
    a.0 > b.0 || (a.0 == b.0 && a.1.ts > b.1.ts)
}

/// `x` placed after every result of `s` it does not go strictly before.
pub open spec fn insert_ranked(s: Seq<(u8, Hit)>, x: (u8, Hit)) -> Seq<(u8, Hit)>
    decreases s.len(),
{
    if s.len() == 0 || !ranks_before(x, s.last()) {
        s.push(x)
    } else {
        insert_ranked(s.drop_last(), x).push(s.last())
    }
}

/// The results stably sorted: higher rank first, newer first within a rank,
/// ties in the order they came.
pub open spec fn ranked(s: Seq<(u8, Hit)>) -> Seq<(u8, Hit)>
    decreases s.len(),
{
    if s.len() == 0 {
        s
    } else {
        insert_ranked(ranked(s.drop_last()), s.last())
    }
}

proof fn lemma_insert_ranked_at(s: Seq<(u8, Hit)>, x: (u8, Hit), p: int)
    requires
        0 <= p <= s.len(),
        forall|k: int| p <= k < s.len() ==> ranks_before(x, #[trigger] s[k]),
        p == 0 || !ranks_before(x, s[p - 1]),
    ensures
        insert_ranked(s, x) == s.take(p).push(x) + s.skip(p),
    decreases s.len(),
{
    if s.len() == 0 {
        assert(s.take(p).push(x) + s.skip(p) =~= s.push(x));
    } else if !ranks_before(x, s.last()) {
        assert(p == s.len());
        assert(s.take(p).push(x) + s.skip(p) =~= s.push(x));
    } else {
        lemma_insert_ranked_at(s.drop_last(), x, p);
        assert(s.drop_last().take(p).push(x) + s.drop_last().skip(p) + seq![s.last()]
            =~= s.take(p).push(x) + s.skip(p));
    }
}

proof fn lemma_insert_ranked_len(s: Seq<(u8, Hit)>, x: (u8, Hit))
    ensures
        insert_ranked(s, x).len() == s.len() + 1,
    decreases s.len(),
{
    if s.len() > 0 && ranks_before(x, s.last()) {
        lemma_insert_ranked_len(s.drop_last(), x);
    }
}

proof fn lemma_ranked_len(s: Seq<(u8, Hit)>)
    ensures
        ranked(s).len() == s.len(),
    decreases s.len(),
{
    if s.len() > 0 {
        lemma_ranked_len(s.drop_last());
        lemma_insert_ranked_len(ranked(s.drop_last()), s.last());
    }
}

/// No result goes strictly before one above it.
pub open spec fn in_rank_order(s: Seq<(u8, Hit)>) -> bool {
    forall|i: int, j: int| 0 <= i < j < s.len() ==> !ranks_before(#[trigger] s[j], #[trigger] s[i])
}

proof fn lemma_insert_ranked_sorted(s: Seq<(u8, Hit)>, x: (u8, Hit))
    requires
        in_rank_order(s),
    ensures
        in_rank_order(insert_ranked(s, x)),
        insert_ranked(s, x).to_multiset() == s.to_multiset().insert(x),
    decreases s.len(),
{
    broadcast use vstd::seq_lib::group_to_multiset_ensures;
    if s.len() == 0 || !ranks_before(x, s.last()) {
        assert(in_rank_order(s.push(x))) by {
            assert forall|i: int, j: int| 0 <= i < j < s.push(x).len() implies
                !ranks_before(#[trigger] s.push(x)[j], #[trigger] s.push(x)[i]) by {
                if j == s.len() && i < s.len() - 1 {
                    assert(!ranks_before(s[s.len() - 1], s[i]));
                }
            }
        }
    } else {
        let d = s.drop_last();
        assert(in_rank_order(d)) by {
            assert forall|i: int, j: int| 0 <= i < j < d.len() implies
                !ranks_before(#[trigger] d[j], #[trigger] d[i]) by {
                assert(d[i] == s[i] && d[j] == s[j]);
            }
        }
        lemma_insert_ranked_sorted(d, x);
        let t = insert_ranked(d, x);
        let r = t.push(s.last());
        assert(d.to_multiset().insert(s.last()) =~= s.to_multiset()) by {
            assert(s =~= d.push(s.last()));
        }
        assert forall|i: int, j: int| 0 <= i < j < r.len() implies
            !ranks_before(#[trigger] r[j], #[trigger] r[i]) by {
            if j == r.len() - 1 && i < t.len() {
                assert(t.to_multiset().count(t[i]) > 0);
                if t[i] != x {
                    assert(d.to_multiset().count(t[i]) > 0);
                    let k = choose|k: int| 0 <= k < d.len() && d[k] == t[i];
                    assert(!ranks_before(s[s.len() - 1], s[k]));
                }
            } else if j < r.len() - 1 {
                assert(r[i] == t[i] && r[j] == t[j]);
            }
        }
    }
}

/// Search results come out in rank order (higher rank first, newer first
/// within a rank), holding exactly the candidates they were made from.
pub proof fn law_results_in_rank_order(s: Seq<(u8, Hit)>)
    ensures
        in_rank_order(ranked(s)),
        ranked(s).to_multiset() == s.to_multiset(),
    decreases s.len(),
{
    broadcast use vstd::seq_lib::group_to_multiset_ensures;
    if s.len() > 0 {
        law_results_in_rank_order(s.drop_last());
        lemma_insert_ranked_sorted(ranked(s.drop_last()), s.last());
        assert(s =~= s.drop_last().push(s.last()));
    } else {
        assert(s.to_multiset() =~= vstd::multiset::Multiset::empty());
    }
}

/// The results a search shows: the candidates stably sorted, the whole
/// phrase (higher rank) first and newest first within a rank, then the
/// first `limit` of them.
pub fn rank_hits(hits: Vec<(u8, Hit)>, limit: usize) -> (r: Vec<Hit>)
    ensures
        r@ == ranked(hits@).take(if limit < hits@.len() { limit as int } else { hits@.len() as int })
            .map_values(|p: (u8, Hit)| p.1),
        r@.len() == if limit < hits@.len() { limit as int } else { hits@.len() as int },
{
    let ghost all = hits@;
    let n = hits.len();
    let mut rest = hits;
    let mut sorted: Vec<(u8, Hit)> = Vec::new();
    let mut i: usize = 0;
    while i < n
        invariant
            n == all.len(),
            i <= n,
            rest@ == all.skip(i as int),
            sorted@ == ranked(all.take(i as int)),
        decreases n - i,
    {
        assert(rest@.len() == n - i);
        let x = rest.remove(0);
        assert(x == all[i as int]);
        assert(rest@ =~= all.skip(i + 1));
        let mut p = sorted.len();
        while p > 0 && (x.0 > sorted[p - 1].0 || (x.0 == sorted[p - 1].0 && x.1.ts > sorted[p - 1].1.ts))
            invariant
                p <= sorted@.len(),
                forall|k: int| p <= k < sorted@.len() ==> ranks_before(x, #[trigger] sorted@[k]),
            decreases p,
        {
            p = p - 1;
        }
        proof {
            lemma_insert_ranked_at(sorted@, x, p as int);
            assert(all.take(i + 1).drop_last() =~= all.take(i as int));
            assert(all.take(i + 1).last() == x);
        }
        let ghost before = sorted@;
        sorted.insert(p, x);
        assert(sorted@ =~= before.take(p as int).push(x) + before.skip(p as int));
        i = i + 1;
    }
    assert(all.take(n as int) =~= all);
    proof {
        lemma_ranked_len(all);
    }
    let m = if limit < n { limit } else { n };
    sorted.truncate(m);
    let ghost kept = sorted@;
    assert(kept =~= ranked(all).take(m as int));
    let mut out: Vec<Hit> = Vec::new();
    let mut j: usize = 0;
    while j < m
        invariant
            m == kept.len(),
            j <= m,
            sorted@ == kept.skip(j as int),
            out@ == kept.take(j as int).map_values(|p: (u8, Hit)| p.1),
        decreases m - j,
    {
        let y = sorted.remove(0);
        assert(y == kept[j as int]);
        assert(sorted@ =~= kept.skip(j + 1));
        out.push(y.1);
        assert(kept.take(j + 1).map_values(|p: (u8, Hit)| p.1)
            =~= kept.take(j as int).map_values(|p: (u8, Hit)| p.1).push(y.1));
        j = j + 1;
    }
    assert(kept.take(m as int) =~= kept);
    out
}

} // verus!
