//! WhatsApp's lightweight markup (`*bold*`, `_italic_`, `~strike~`,
//! ```` ```mono``` ```` and `` `code` ``) turned into the markdown subset a
//! styled-text widget understands, and into the plain text drawn under it.
//! Everything outside a marker is escaped so stray symbols stay literal.
//!
//! Both renderings come from one token stream, so a marker either styles
//! in both or is literal in both.
use vstd::prelude::*;
use crate::text::{is_space, is_space_char, all_ascii_digits, all_space, no_space, push_range, push_all, chars_of, string_of, byte_len, char_len, char_len_of, lemma_byte_len_push, lemma_byte_len_concat};
use crate::unicode::{alnum, is_alnum_char, is_digit_class, is_digit_class_char, is_word_class, is_word_class_char};

verus! {

broadcast use vstd::string::group_string_axioms;

// ---------------------------------------------------------------------------
// The token grammar
// ---------------------------------------------------------------------------

#[derive(PartialEq, Eq, Structural, Clone, Copy)]
pub enum TokenKind {
    Plain,
    Code,
    Bold,
    Italic,
    Strike,
}

/// The first position at or after `from` holding `d` or a newline, or the
/// length when there is none.
pub open spec fn first_stop(t: Seq<char>, from: int, d: char) -> int
    decreases t.len() - from,
{
    if from >= t.len() {
        t.len() as int
    } else if t[from] == d || t[from] == '\n' {
        from
    } else {
        first_stop(t, from + 1, d)
    }
}

/// A one-char marker pair opening at `i` (which holds `d`): the inner text
/// runs to the next `d` on the same line, is not empty, and (but for a code
/// span) neither starts nor ends with whitespace. Gives the inner range.
pub open spec fn pair_inner(t: Seq<char>, i: int, d: char) -> Option<(int, int)> {
    let k = first_stop(t, i + 1, d);
    if k < t.len() && t[k] == d && k >= i + 2 && (d == '`' || (!is_space(t[i + 1]) && !is_space(
        t[k - 1],
    ))) {
        Some((i + 1, k))
    } else {
        None
    }
}

pub open spec fn is_fence(t: Seq<char>, j: int) -> bool {
    0 <= j && j + 3 <= t.len() && t[j] == '`' && t[j + 1] == '`' && t[j + 2] == '`'
}

/// The first triple backtick at or after `from`, or the length.
pub open spec fn first_fence(t: Seq<char>, from: int) -> int
    decreases t.len() - from,
{
    if from + 3 > t.len() {
        t.len() as int
    } else if is_fence(t, from) {
        from
    } else {
        first_fence(t, from + 1)
    }
}

/// The marker pair that starts at `i`, if any: its kind, where the whole
/// pair ends, and the range of its inner text. A triple-backtick block
/// takes the shortest non-empty inner text (newlines allowed); it is tried
/// before a one-backtick span.
pub open spec fn marker_at(t: Seq<char>, i: int) -> Option<(TokenKind, int, int, int)> {
    if !(0 <= i < t.len()) {
        None
    } else if t[i] == '`' {
        let j = first_fence(t, i + 4);
        if is_fence(t, i) && j + 3 <= t.len() {
            Some((TokenKind::Code, j + 3, i + 3, j))
        } else {
            match pair_inner(t, i, '`') {
                Some((a, b)) => Some((TokenKind::Code, b + 1, a, b)),
                None => None,
            }
        }
    } else if t[i] == '*' {
        match pair_inner(t, i, '*') {
            Some((a, b)) => Some((TokenKind::Bold, b + 1, a, b)),
            None => None,
        }
    } else if t[i] == '_' {
        match pair_inner(t, i, '_') {
            Some((a, b)) => Some((TokenKind::Italic, b + 1, a, b)),
            None => None,
        }
    } else if t[i] == '~' {
        match pair_inner(t, i, '~') {
            Some((a, b)) => Some((TokenKind::Strike, b + 1, a, b)),
            None => None,
        }
    } else {
        None
    }
}

/// An underscore pair glued to a letter or digit on either side
/// ("snake_case_name") is not a style.
pub open spec fn glued(t: Seq<char>, i: int, e: int) -> bool {
    (i > 0 && alnum(t[i - 1])) || (e < t.len() && alnum(t[e]))
}

pub proof fn lemma_first_stop(t: Seq<char>, from: int, d: char)
    requires
        0 <= from <= t.len(),
    ensures
        from <= first_stop(t, from, d) <= t.len(),
        first_stop(t, from, d) < t.len() ==> (t[first_stop(t, from, d)] == d || t[first_stop(
            t,
            from,
            d,
        )] == '\n'),
        forall|k: int| from <= k < first_stop(t, from, d) ==> t[k] != d && t[k] != '\n',
    decreases t.len() - from,
{
    if from < t.len() && !(t[from] == d || t[from] == '\n') {
        lemma_first_stop(t, from + 1, d);
    }
}

pub proof fn lemma_first_fence(t: Seq<char>, from: int)
    requires
        0 <= from,
    ensures
        from <= first_fence(t, from) || first_fence(t, from) == t.len(),
        first_fence(t, from) + 3 <= t.len() ==> is_fence(t, first_fence(t, from)),
        first_fence(t, from) <= t.len(),
    decreases t.len() - from,
{
    if from + 3 <= t.len() && !is_fence(t, from) {
        lemma_first_fence(t, from + 1);
    }
}

pub proof fn lemma_marker_bounds(t: Seq<char>, i: int)
    ensures
        marker_at(t, i) matches Some((k, e, a, b)) ==> i < a <= b < e <= t.len() && i + 2 <= e,
{
    if 0 <= i < t.len() {
        lemma_first_fence(t, i + 4);
        if i + 1 <= t.len() {
            lemma_first_stop(t, i + 1, t[i]);
        }
    }
}

/// The token stream of `t` scanned from `p`, with plain text pending since
/// `last`: the leftmost marker pair wins, and scanning resumes after it.
/// Each token is a kind and the range of its text.
pub open spec fn tokens_from(t: Seq<char>, p: int, last: int) -> Seq<(TokenKind, int, int)>
    decreases t.len() - p,
{
    if p < 0 || p >= t.len() {
        seq![(TokenKind::Plain, last, t.len() as int)]
    } else {
        match marker_at(t, p) {
            None => tokens_from(t, p + 1, last),
            Some((k, e, a, b)) => {
                proof {
                    lemma_marker_bounds(t, p);
                }
                if k == TokenKind::Italic && glued(t, p, e) {
                    tokens_from(t, e, last)
                } else {
                    seq![(TokenKind::Plain, last, p), (k, a, b)] + tokens_from(t, e, e)
                }
            },
        }
    }
}

pub open spec fn tokens_of(t: Seq<char>) -> Seq<(TokenKind, int, int)> {
    tokens_from(t, 0, 0)
}

/// A token of the stream: its kind and the range of its text.
#[derive(Clone, Copy)]
pub struct Token {
    pub kind: TokenKind,
    pub start: usize,
    pub end: usize,
}

pub open spec fn token_view(tok: Token) -> (TokenKind, int, int) {
    (tok.kind, tok.start as int, tok.end as int)
}

/// Every token's range lies within a text of length `n`.
pub open spec fn tokens_within(toks: Seq<Token>, n: nat) -> bool {
    forall|i: int| 0 <= i < toks.len() ==> #[trigger] toks[i].start <= toks[i].end <= n
}

fn first_stop_exec(t: &Vec<char>, from: usize, d: char) -> (k: usize)
    requires
        from <= t@.len(),
    ensures
        k == first_stop(t@, from as int, d),
{
    let n = t.len();
    let mut k = from;
    while k < n && t[k] != d && t[k] != '\n'
        invariant
            n == t@.len(),
            from <= k <= n,
            first_stop(t@, from as int, d) == first_stop(t@, k as int, d),
        decreases n - k,
    {
        k = k + 1;
    }
    k
}

fn is_fence_exec(t: &Vec<char>, j: usize) -> (r: bool)
    ensures
        r == is_fence(t@, j as int),
{
    j < t.len() && t.len() - j >= 3 && t[j] == '`' && t[j + 1] == '`' && t[j + 2] == '`'
}

fn first_fence_exec(t: &Vec<char>, from: usize) -> (j: usize)
    requires
        from <= t@.len(),
    ensures
        j == first_fence(t@, from as int),
{
    let n = t.len();
    let mut j = from;
    while j < n && n - j >= 3 && !is_fence_exec(t, j)
        invariant
            n == t@.len(),
            from <= j <= n,
            first_fence(t@, from as int) == first_fence(t@, j as int),
        decreases n - j,
    {
        j = j + 1;
    }
    if j < n && n - j >= 3 {
        j
    } else {
        n
    }
}

fn pair_inner_exec(t: &Vec<char>, i: usize, d: char) -> (r: Option<(usize, usize)>)
    requires
        i < t@.len(),
    ensures
        r matches Some((a, b)) ==> pair_inner(t@, i as int, d) == Some((a as int, b as int)),
        r is None ==> pair_inner(t@, i as int, d) is None,
        r matches Some((a, b)) ==> b < t@.len(),
{
    let n = t.len();
    let k = first_stop_exec(t, i + 1, d);
    proof {
        lemma_first_stop(t@, i + 1, d);
    }
    if k < t.len() && t[k] == d && k >= i + 2 && (d == '`' || (!is_space_char(t[i + 1])
        && !is_space_char(t[k - 1]))) {
        Some((i + 1, k))
    } else {
        None
    }
}

fn marker_at_exec(t: &Vec<char>, i: usize) -> (r: Option<(TokenKind, usize, usize, usize)>)
    requires
        i < t@.len(),
    ensures
        r matches Some((k, e, a, b)) ==> marker_at(t@, i as int) == Some(
            (k, e as int, a as int, b as int),
        ),
        r is None ==> marker_at(t@, i as int) is None,
{
    let n = t.len();
    let c = t[i];
    if c == '`' {
        if is_fence_exec(t, i) && n - i >= 4 {
            let j = first_fence_exec(t, i + 4);
            proof {
                lemma_first_fence(t@, i + 4);
            }
            if j < n && n - j >= 3 {
                return Some((TokenKind::Code, j + 3, i + 3, j));
            }
        }
        match pair_inner_exec(t, i, '`') {
            Some((a, b)) => Some((TokenKind::Code, b + 1, a, b)),
            None => None,
        }
    } else if c == '*' {
        match pair_inner_exec(t, i, '*') {
            Some((a, b)) => Some((TokenKind::Bold, b + 1, a, b)),
            None => None,
        }
    } else if c == '_' {
        match pair_inner_exec(t, i, '_') {
            Some((a, b)) => Some((TokenKind::Italic, b + 1, a, b)),
            None => None,
        }
    } else if c == '~' {
        match pair_inner_exec(t, i, '~') {
            Some((a, b)) => Some((TokenKind::Strike, b + 1, a, b)),
            None => None,
        }
    } else {
        None
    }
}

fn glued_exec(t: &Vec<char>, i: usize, e: usize) -> (r: bool)
    requires
        i <= e <= t@.len(),
    ensures
        r == glued(t@, i as int, e as int),
{
    (i > 0 && is_alnum_char(t[i - 1])) || (e < t.len() && is_alnum_char(t[e]))
}

/// The token stream of `t`.
pub fn tokens(t: &Vec<char>) -> (out: Vec<Token>)
    ensures
        out@.map_values(|tok: Token| token_view(tok)) == tokens_of(t@),
        tokens_within(out@, t@.len()),
{
    let n = t.len();
    let mut out: Vec<Token> = Vec::new();
    let mut p: usize = 0;
    let mut last: usize = 0;
    while p < n
        invariant
            n == t@.len(),
            last <= p <= n,
            out@.map_values(|tok: Token| token_view(tok)) + tokens_from(t@, p as int, last as int)
                == tokens_of(t@),
            tokens_within(out@, n as nat),
        decreases n - p,
    {
        match marker_at_exec(t, p) {
            None => {
                p = p + 1;
            },
            Some((k, e, a, b)) => {
                proof {
                    lemma_marker_bounds(t@, p as int);
                }
                if k == TokenKind::Italic && glued_exec(t, p, e) {
                    p = e;
                } else {
                    let ghost before = out@;
                    out.push(Token { kind: TokenKind::Plain, start: last, end: p });
                    out.push(Token { kind: k, start: a, end: b });
                    assert forall|j: int| 0 <= j < out@.len() implies #[trigger] out@[j].start
                        <= out@[j].end <= n by {
                        if j < before.len() {
                            assert(out@[j] == before[j]);
                        }
                    }
                    assert(out@.map_values(|tok: Token| token_view(tok)) =~= before.map_values(
                        |tok: Token| token_view(tok),
                    ) + seq![(TokenKind::Plain, last as int, p as int), (k, a as int, b as int)]);
                    p = e;
                    last = e;
                }
            },
        }
    }
    let ghost before = out@;
    out.push(Token { kind: TokenKind::Plain, start: last, end: n });
    assert forall|j: int| 0 <= j < out@.len() implies #[trigger] out@[j].start <= out@[j].end
        <= n by {
        if j < before.len() {
            assert(out@[j] == before[j]);
        }
    }
    assert(out@.map_values(|tok: Token| token_view(tok)) =~= before.map_values(
        |tok: Token| token_view(tok),
    ) + seq![(TokenKind::Plain, last as int, n as int)]);
    out
}


// ---------------------------------------------------------------------------
// Escaping, links and mentions
// ---------------------------------------------------------------------------

/// Chars that markdown would read as syntax; `<` and `&` too, or "<b>"
/// would become a tag and "&amp;" an entity.
pub open spec fn md_special(c: char) -> bool {
    c == '\\' || c == '`' || c == '*' || c == '_' || c == '~' || c == '[' || c == ']' || c == '('
        || c == ')' || c == '#' || c == '>' || c == '+' || c == '-' || c == '.' || c == '!' || c
        == '|' || c == '<' || c == '&'
}

/// `s` with a backslash before every markdown-special char.
pub open spec fn escaped(s: Seq<char>) -> Seq<char>
    decreases s.len(),
{
    if s.len() == 0 {
        seq![]
    } else if md_special(s.last()) {
        escaped(s.drop_last()) + seq!['\\', s.last()]
    } else {
        escaped(s.drop_last()).push(s.last())
    }
}

fn md_special_char(c: char) -> (r: bool)
    ensures
        r == md_special(c),
{
    c == '\\' || c == '`' || c == '*' || c == '_' || c == '~' || c == '[' || c == ']' || c == '('
        || c == ')' || c == '#' || c == '>' || c == '+' || c == '-' || c == '.' || c == '!' || c
        == '|' || c == '<' || c == '&'
}

/// Pushes `escaped(s[from..to])` onto `out`.
fn push_escaped(out: &mut Vec<char>, s: &Vec<char>, from: usize, to: usize)
    requires
        from <= to <= s@.len(),
    ensures
        final(out)@ == old(out)@ + escaped(s@.subrange(from as int, to as int)),
{
    let mut i = from;
    while i < to
        invariant
            from <= i <= to <= s@.len(),
            out@ == old(out)@ + escaped(s@.subrange(from as int, i as int)),
        decreases to - i,
    {
        let c = s[i];
        let ghost prev = out@;
        if md_special_char(c) {
            out.push('\\');
            out.push(c);
        } else {
            out.push(c);
        }
        assert(s@.subrange(from as int, i + 1).drop_last() =~= s@.subrange(from as int, i as int));
        assert(out@ =~= old(out)@ + escaped(s@.subrange(from as int, i + 1)));
        i = i + 1;
    }
}

/// The copy of `s[from..to]`.
fn slice_of(s: &Vec<char>, from: usize, to: usize) -> (r: Vec<char>)
    requires
        from <= to <= s@.len(),
    ensures
        r@ == s@.subrange(from as int, to as int),
{
    let mut r: Vec<char> = Vec::new();
    push_range(&mut r, s, from, to);
    r
}

pub open spec fn is_url_char(c: char) -> bool {
    !is_space(c) && c != '<' && c != '>' && c != ']'
}

/// The end of the run of url chars that starts at `from`.
pub open spec fn url_run_end(s: Seq<char>, from: int) -> int
    decreases s.len() - from,
{
    if from >= s.len() {
        s.len() as int
    } else if is_url_char(s[from]) {
        url_run_end(s, from + 1)
    } else {
        from
    }
}

/// "http" in any letter case at `i`.
pub open spec fn http_at(s: Seq<char>, i: int) -> bool {
    &&& 0 <= i
    &&& i + 4 <= s.len()
    &&& s[i] == 'h' || s[i] == 'H'
    &&& s[i + 1] == 't' || s[i + 1] == 'T'
    &&& s[i + 2] == 't' || s[i + 2] == 'T'
    &&& s[i + 3] == 'p' || s[i + 3] == 'P'
}

/// The chars a case-insensitive `s` matches: `s`, `S` and the long s.
pub open spec fn is_s_letter(c: char) -> bool {
    c == 's' || c == 'S' || c == '\u{17f}'
}

/// A link starting at `i`: `http://` or `https://` (any letter case)
/// followed by the longest non-empty run of chars that are neither
/// whitespace nor `<`, `>`, `]`. Gives where it ends.
pub open spec fn url_at(s: Seq<char>, i: int) -> Option<int> {
    if !http_at(s, i) {
        None
    } else {
        let j = if i + 4 < s.len() && is_s_letter(s[i + 4]) {
            i + 5
        } else {
            i + 4
        };
        if j + 3 < s.len() && s[j] == ':' && s[j + 1] == '/' && s[j + 2] == '/' && is_url_char(
            s[j + 3],
        ) {
            Some(url_run_end(s, j + 3))
        } else {
            None
        }
    }
}

pub proof fn lemma_url_run_end(s: Seq<char>, from: int)
    requires
        0 <= from <= s.len(),
    ensures
        from <= url_run_end(s, from) <= s.len(),
        forall|k: int| from <= k < url_run_end(s, from) ==> is_url_char(#[trigger] s[k]),
    decreases s.len() - from,
{
    if from < s.len() && is_url_char(s[from]) {
        lemma_url_run_end(s, from + 1);
    }
}

pub proof fn lemma_url_bounds(s: Seq<char>, i: int)
    ensures
        url_at(s, i) matches Some(e) ==> i + 8 <= e <= s.len(),
{
    if http_at(s, i) {
        let j = if i + 4 < s.len() && is_s_letter(s[i + 4]) {
            i + 5
        } else {
            i + 4
        };
        if j + 3 < s.len() {
            lemma_url_run_end(s, j + 3);
            if is_url_char(s[j + 3]) {
                assert(url_run_end(s, j + 3) == url_run_end(s, j + 4));
                lemma_url_run_end(s, j + 4);
            }
        }
    }
}

fn is_url_char_exec(c: char) -> (r: bool)
    ensures
        r == is_url_char(c),
{
    !is_space_char(c) && c != '<' && c != '>' && c != ']'
}

fn url_at_exec(s: &Vec<char>, i: usize) -> (r: Option<usize>)
    requires
        i <= s@.len(),
    ensures
        r matches Some(e) ==> url_at(s@, i as int) == Some(e as int),
        r is None ==> url_at(s@, i as int) is None,
{
    let n = s.len();
    if n - i < 4 {
        return None;
    }
    if !((s[i] == 'h' || s[i] == 'H') && (s[i + 1] == 't' || s[i + 1] == 'T') && (s[i + 2] == 't'
        || s[i + 2] == 'T') && (s[i + 3] == 'p' || s[i + 3] == 'P')) {
        return None;
    }
    let j = if i + 4 < n && (s[i + 4] == 's' || s[i + 4] == 'S' || s[i + 4] == '\u{17f}') {
        i + 5
    } else {
        i + 4
    };
    if j < n && n - j > 3 && s[j] == ':' && s[j + 1] == '/' && s[j + 2] == '/' && is_url_char_exec(
        s[j + 3],
    ) {
        let mut k = j + 3;
        while k < n && is_url_char_exec(s[k])
            invariant
                n == s@.len(),
                j + 3 <= k <= n,
                url_run_end(s@, j + 3) == url_run_end(s@, k as int),
            decreases n - k,
        {
            k = k + 1;
        }
        Some(k)
    } else {
        None
    }
}

/// The markdown for plain text: every link becomes `[escaped url](url)`,
/// everything else is escaped. Scans `s` from `p`, with text pending since
/// `last`.
pub open spec fn links_md(s: Seq<char>, p: int, last: int) -> Seq<char>
    decreases s.len() - p,
{
    if p < 0 || p >= s.len() {
        escaped(s.subrange(last, s.len() as int))
    } else {
        match url_at(s, p) {
            None => links_md(s, p + 1, last),
            Some(e) => {
                proof {
                    lemma_url_bounds(s, p);
                }
                escaped(s.subrange(last, p)) + seq!['['] + escaped(s.subrange(p, e)) + seq![
                    ']',
                    '(',
                ] + s.subrange(p, e) + seq![')'] + links_md(s, e, e)
            },
        }
    }
}

/// Pushes `links_md(s, 0, 0)` onto `out`.
fn push_links_md(out: &mut Vec<char>, s: &Vec<char>)
    ensures
        final(out)@ == old(out)@ + links_md(s@, 0, 0),
{
    let n = s.len();
    let mut p: usize = 0;
    let mut last: usize = 0;
    while p < n
        invariant
            n == s@.len(),
            last <= p <= n,
            out@ + links_md(s@, p as int, last as int) == old(out)@ + links_md(s@, 0, 0),
        decreases n - p,
    {
        match url_at_exec(s, p) {
            None => {
                p = p + 1;
            },
            Some(e) => {
                proof {
                    lemma_url_bounds(s@, p as int);
                }
                let ghost prev = out@;
                push_escaped(out, s, last, p);
                out.push('[');
                push_escaped(out, s, p, e);
                out.push(']');
                out.push('(');
                push_range(out, s, p, e);
                out.push(')');
                assert(out@ + links_md(s@, e as int, e as int) =~= prev + links_md(
                    s@,
                    p as int,
                    last as int,
                ));
                p = e;
                last = e;
            },
        }
    }
    push_escaped(out, s, last, n);
}

/// The end of the run of `\d` chars that starts at `from`.
pub open spec fn digit_run_end(s: Seq<char>, from: int) -> int
    decreases s.len() - from,
{
    if from >= s.len() {
        s.len() as int
    } else if is_digit_class(s[from]) {
        digit_run_end(s, from + 1)
    } else {
        from
    }
}

/// `\b` right after a word char: the end of the text or a non-word char.
pub open spec fn ends_word(s: Seq<char>, k: int) -> bool {
    k >= s.len() || !is_word_class(s[k])
}

/// `s[at..]` spells `lower` in any letter case (`upper` is the same word in
/// capitals).
pub open spec fn spells(s: Seq<char>, at: int, lower: Seq<char>, upper: Seq<char>) -> bool {
    &&& 0 <= at
    &&& lower.len() == upper.len()
    &&& at + lower.len() <= s.len()
    &&& forall|k: int|
        0 <= k < lower.len() ==> (s[at + k] == lower[k] || s[at + k] == upper[k])
}

pub open spec fn all_lower() -> Seq<char> {
    seq!['a', 'l', 'l']
}

pub open spec fn all_upper() -> Seq<char> {
    seq!['A', 'L', 'L']
}

pub open spec fn everyone_lower() -> Seq<char> {
    seq!['e', 'v', 'e', 'r', 'y', 'o', 'n', 'e']
}

pub open spec fn everyone_upper() -> Seq<char> {
    seq!['E', 'V', 'E', 'R', 'Y', 'O', 'N', 'E']
}

/// A mention starting at `i`: `@` then 5 to 20 decimal digits, or "all",
/// or "everyone" (any letter case), ending at a word boundary. Gives where
/// it ends and the range of the word after the `@`.
pub open spec fn mention_at(s: Seq<char>, i: int) -> Option<(int, int, int)> {
    if !(0 <= i < s.len()) || s[i] != '@' {
        None
    } else {
        let r = digit_run_end(s, i + 1);
        if 5 <= r - (i + 1) <= 20 && ends_word(s, r) {
            Some((r, i + 1, r))
        } else if spells(s, i + 1, all_lower(), all_upper()) && ends_word(s, i + 4) {
            Some((i + 4, i + 1, i + 4))
        } else if spells(s, i + 1, everyone_lower(), everyone_upper()) && ends_word(s, i + 9) {
            Some((i + 9, i + 1, i + 9))
        } else {
            None
        }
    }
}

pub proof fn lemma_digit_run_end(s: Seq<char>, from: int)
    requires
        0 <= from <= s.len(),
    ensures
        from <= digit_run_end(s, from) <= s.len(),
    decreases s.len() - from,
{
    if from < s.len() && is_digit_class(s[from]) {
        lemma_digit_run_end(s, from + 1);
    }
}

pub proof fn lemma_mention_bounds(s: Seq<char>, i: int)
    ensures
        mention_at(s, i) matches Some((e, a, b)) ==> (i + 1 == a && a < b && b == e && e
            <= s.len()),
{
    if 0 <= i < s.len() && s[i] == '@' {
        lemma_digit_run_end(s, i + 1);
    }
}

fn spells_exec(s: &Vec<char>, at: usize, lower: &Vec<char>, upper: &Vec<char>) -> (r: bool)
    requires
        at <= s@.len(),
        lower@.len() == upper@.len(),
    ensures
        r == spells(s@, at as int, lower@, upper@),
{
    let n = s.len();
    if lower.len() > n - at {
        return false;
    }
    let mut k: usize = 0;
    while k < lower.len()
        invariant
            n == s@.len(),
            lower@.len() == upper@.len(),
            at + lower@.len() <= n,
            k <= lower@.len(),
            forall|q: int| 0 <= q < k ==> (s@[at + q] == lower@[q] || s@[at + q] == upper@[q]),
        decreases lower.len() - k,
    {
        if s[at + k] != lower[k] && s[at + k] != upper[k] {
            return false;
        }
        k = k + 1;
    }
    true
}

fn ends_word_exec(s: &Vec<char>, k: usize) -> (r: bool)
    ensures
        r == ends_word(s@, k as int),
{
    k >= s.len() || !is_word_class_char(s[k])
}

fn mention_at_exec(s: &Vec<char>, i: usize) -> (r: Option<(usize, usize, usize)>)
    requires
        i < s@.len(),
    ensures
        r matches Some((e, a, b)) ==> mention_at(s@, i as int) == Some(
            (e as int, a as int, b as int),
        ),
        r is None ==> mention_at(s@, i as int) is None,
{
    let n = s.len();
    if s[i] != '@' {
        return None;
    }
    let mut r = i + 1;
    while r < n && is_digit_class_char(s[r])
        invariant
            n == s@.len(),
            i + 1 <= r <= n,
            digit_run_end(s@, i + 1) == digit_run_end(s@, r as int),
        decreases n - r,
    {
        r = r + 1;
    }
    let len = r - (i + 1);
    if 5 <= len && len <= 20 && ends_word_exec(s, r) {
        return Some((r, i + 1, r));
    }
    let al = vec!['a', 'l', 'l'];
    let au = vec!['A', 'L', 'L'];
    assert(al@ =~= all_lower());
    assert(au@ =~= all_upper());
    if spells_exec(s, i + 1, &al, &au) && ends_word_exec(s, i + 4) {
        return Some((i + 4, i + 1, i + 4));
    }
    let el = vec!['e', 'v', 'e', 'r', 'y', 'o', 'n', 'e'];
    let eu = vec!['E', 'V', 'E', 'R', 'Y', 'O', 'N', 'E'];
    assert(el@ =~= everyone_lower());
    assert(eu@ =~= everyone_upper());
    if spells_exec(s, i + 1, &el, &eu) && ends_word_exec(s, i + 9) {
        return Some((i + 9, i + 1, i + 9));
    }
    None
}

fn all_ascii_digits_exec(s: &Vec<char>, from: usize, to: usize) -> (r: bool)
    requires
        from <= to <= s@.len(),
    ensures
        r == all_ascii_digits(s@.subrange(from as int, to as int)),
{
    let mut k = from;
    while k < to
        invariant
            from <= k <= to <= s@.len(),
            forall|q: int| from <= q < k ==> ('0' <= #[trigger] s@[q] <= '9'),
        decreases to - k,
    {
        if !('0' <= s[k] && s[k] <= '9') {
            assert(!('0' <= s@.subrange(from as int, to as int)[k - from] <= '9'));
            return false;
        }
        k = k + 1;
    }
    assert forall|q: int| 0 <= q < to - from implies ('0' <= #[trigger] s@.subrange(
        from as int,
        to as int,
    )[q] <= '9') by {
        assert(s@.subrange(from as int, to as int)[q] == s@[from + q]);
    }
    true
}

// ---------------------------------------------------------------------------
// Mentions in the markdown rendering
// ---------------------------------------------------------------------------

/// Where a mention points: the chat to open, and the name to show when the
/// id belongs to someone known.
pub struct MentionTarget {
    pub name: Option<String>,
    pub jid: String,
}

pub open spec fn target_view(m: MentionTarget) -> (Option<Seq<char>>, Seq<char>) {
    (
        match m.name {
            Some(n) => Some(n@),
            None => None,
        },
        m.jid@,
    )
}

pub open spec fn targets_view(v: Seq<MentionTarget>) -> Seq<(Option<Seq<char>>, Seq<char>)> {
    v.map_values(|m: MentionTarget| target_view(m))
}

/// The ids (all-ASCII-digit words) of the mentions in `s` from `p`, in
/// order: each is looked up once, in this order.
pub open spec fn mention_ids_from(s: Seq<char>, p: int) -> Seq<Seq<char>>
    decreases s.len() - p,
{
    if p < 0 || p >= s.len() {
        seq![]
    } else {
        match mention_at(s, p) {
            None => mention_ids_from(s, p + 1),
            Some((e, a, b)) => {
                proof {
                    lemma_mention_bounds(s, p);
                }
                if all_ascii_digits(s.subrange(a, b)) {
                    seq![s.subrange(a, b)] + mention_ids_from(s, e)
                } else {
                    mention_ids_from(s, e)
                }
            },
        }
    }
}

/// The label a mention shows: the known name, else the id itself.
pub open spec fn label_of(tv: (Option<Seq<char>>, Seq<char>), id: Seq<char>) -> Seq<char> {
    match tv.0 {
        Some(n) => n,
        None => id,
    }
}

/// The markdown for plain text with mentions: an id mention becomes a link
/// `[@label](jid)` to its chat (named or not), taking the targets `tg` in
/// order; "@all"/"@everyone" become bold; the text between goes through
/// `links_md`.
pub open spec fn mentions_md(
    s: Seq<char>,
    p: int,
    last: int,
    tg: Seq<(Option<Seq<char>>, Seq<char>)>,
) -> Seq<char>
    decreases s.len() - p,
{
    if p < 0 || p >= s.len() {
        links_md(s.subrange(last, s.len() as int), 0, 0)
    } else {
        match mention_at(s, p) {
            None => mentions_md(s, p + 1, last, tg),
            Some((e, a, b)) => {
                proof {
                    lemma_mention_bounds(s, p);
                }
                let tok = s.subrange(a, b);
                let before = links_md(s.subrange(last, p), 0, 0);
                if all_ascii_digits(tok) {
                    before + seq!['[', '@'] + escaped(label_of(tg[0], tok)) + seq![']', '('] + tg[0].1
                        + seq![')'] + mentions_md(s, e, e, tg.drop_first())
                } else {
                    before + seq!['*', '*', '@'] + escaped(tok) + seq!['*', '*'] + mentions_md(
                        s,
                        e,
                        e,
                        tg,
                    )
                }
            },
        }
    }
}

/// Pushes the mention ids of `s` onto `ids`.
fn push_mention_ids(ids: &mut Vec<Vec<char>>, s: &Vec<char>)
    ensures
        final(ids)@.map_values(|v: Vec<char>| v@) == old(ids)@.map_values(|v: Vec<char>| v@)
            + mention_ids_from(s@, 0),
{
    let n = s.len();
    let mut p: usize = 0;
    while p < n
        invariant
            n == s@.len(),
            p <= n,
            ids@.map_values(|v: Vec<char>| v@) + mention_ids_from(s@, p as int) == old(
                ids,
            )@.map_values(|v: Vec<char>| v@) + mention_ids_from(s@, 0),
        decreases n - p,
    {
        match mention_at_exec(s, p) {
            None => {
                p = p + 1;
            },
            Some((e, a, b)) => {
                proof {
                    lemma_mention_bounds(s@, p as int);
                }
                if all_ascii_digits_exec(s, a, b) {
                    let ghost prev = ids@;
                    ids.push(slice_of(s, a, b));
                    assert(ids@.map_values(|v: Vec<char>| v@) =~= prev.map_values(
                        |v: Vec<char>| v@,
                    ) + seq![s@.subrange(a as int, b as int)]);
                }
                p = e;
            },
        }
    }
}

/// Pushes the escaped label of target `m` (its name, else `id`).
fn push_label_escaped(out: &mut Vec<char>, m: &MentionTarget, s: &Vec<char>, a: usize, b: usize)
    requires
        a <= b <= s@.len(),
    ensures
        final(out)@ == old(out)@ + escaped(label_of(target_view(*m), s@.subrange(a as int, b as int))),
{
    match &m.name {
        Some(nm) => {
            let v = chars_of(nm.as_str());
            push_escaped(out, &v, 0, v.len());
            assert(v@.subrange(0, v@.len() as int) =~= v@);
        },
        None => {
            push_escaped(out, s, a, b);
        },
    }
}

/// Pushes `mentions_md(s, 0, 0, targets[k..])` onto `out`; gives the index
/// of the first target not used.
fn push_mentions_md(out: &mut Vec<char>, s: &Vec<char>, targets: &Vec<MentionTarget>, k: usize) -> (k2: usize)
    requires
        k + mention_ids_from(s@, 0).len() <= targets@.len(),
    ensures
        final(out)@ == old(out)@ + mentions_md(s@, 0, 0, targets_view(targets@).skip(k as int)),
        k2 == k + mention_ids_from(s@, 0).len(),
{
    let n = s.len();
    let ghost tvs = targets_view(targets@);
    let mut p: usize = 0;
    let mut last: usize = 0;
    let mut kk = k;
    let nt = targets.len();
    while p < n
        invariant
            n == s@.len(),
            nt == targets@.len(),
            last <= p <= n,
            tvs == targets_view(targets@),
            k <= kk,
            kk + mention_ids_from(s@, p as int).len() == k + mention_ids_from(s@, 0).len(),
            k + mention_ids_from(s@, 0).len() <= targets@.len(),
            out@ + mentions_md(s@, p as int, last as int, tvs.skip(kk as int)) == old(out)@
                + mentions_md(s@, 0, 0, tvs.skip(k as int)),
        decreases n - p,
    {
        match mention_at_exec(s, p) {
            None => {
                p = p + 1;
            },
            Some((e, a, b)) => {
                proof {
                    lemma_mention_bounds(s@, p as int);
                }
                let ghost prev = out@;
                let seg = slice_of(s, last, p);
                push_links_md(out, &seg);
                if all_ascii_digits_exec(s, a, b) {
                    assert(kk < targets@.len());
                    let m = &targets[kk];
                    out.push('[');
                    out.push('@');
                    push_label_escaped(out, m, s, a, b);
                    out.push(']');
                    out.push('(');
                    let j = chars_of(m.jid.as_str());
                    push_all(out, &j);
                    out.push(')');
                    assert(tvs.skip(kk as int)[0] == target_view(*m));
                    assert(tvs.skip(kk as int).drop_first() =~= tvs.skip(kk + 1));
                    assert(out@ + mentions_md(s@, e as int, e as int, tvs.skip(kk + 1)) =~= prev
                        + mentions_md(s@, p as int, last as int, tvs.skip(kk as int)));
                    kk = kk + 1;
                } else {
                    out.push('*');
                    out.push('*');
                    out.push('@');
                    push_escaped(out, s, a, b);
                    out.push('*');
                    out.push('*');
                    assert(out@ + mentions_md(s@, e as int, e as int, tvs.skip(kk as int)) =~= prev
                        + mentions_md(s@, p as int, last as int, tvs.skip(kk as int)));
                }
                p = e;
                last = e;
            },
        }
    }
    let seg = slice_of(s, last, n);
    push_links_md(out, &seg);
    kk
}

// ---------------------------------------------------------------------------
// Lines: code spans and blank or indented lines
// ---------------------------------------------------------------------------

/// The no-break space, which markdown does not treat as whitespace.
pub open spec fn nbsp() -> char {
    '\u{a0}'
}

/// The first newline at or after `from`, or the length.
pub open spec fn next_nl(s: Seq<char>, from: int) -> int
    decreases s.len() - from,
{
    if from >= s.len() {
        s.len() as int
    } else if s[from] == '\n' {
        from
    } else {
        next_nl(s, from + 1)
    }
}

pub proof fn lemma_next_nl(s: Seq<char>, from: int)
    requires
        0 <= from <= s.len(),
    ensures
        from <= next_nl(s, from) <= s.len(),
        next_nl(s, from) < s.len() ==> s[next_nl(s, from)] == '\n',
    decreases s.len() - from,
{
    if from < s.len() && s[from] != '\n' {
        lemma_next_nl(s, from + 1);
    }
}

fn next_nl_exec(s: &Vec<char>, from: usize) -> (q: usize)
    requires
        from <= s@.len(),
    ensures
        q == next_nl(s@, from as int),
{
    let n = s.len();
    let mut q = from;
    while q < n && s[q] != '\n'
        invariant
            n == s@.len(),
            from <= q <= n,
            next_nl(s@, from as int) == next_nl(s@, q as int),
        decreases n - q,
    {
        q = q + 1;
    }
    q
}

/// `s` without its backticks.
pub open spec fn strip_ticks(s: Seq<char>) -> Seq<char>
    decreases s.len(),
{
    if s.len() == 0 {
        seq![]
    } else if s.last() == '`' {
        strip_ticks(s.drop_last())
    } else {
        strip_ticks(s.drop_last()).push(s.last())
    }
}

fn push_strip_ticks(out: &mut Vec<char>, s: &Vec<char>, from: usize, to: usize)
    requires
        from <= to <= s@.len(),
    ensures
        final(out)@ == old(out)@ + strip_ticks(s@.subrange(from as int, to as int)),
{
    let mut i = from;
    while i < to
        invariant
            from <= i <= to <= s@.len(),
            out@ == old(out)@ + strip_ticks(s@.subrange(from as int, i as int)),
        decreases to - i,
    {
        if s[i] != '`' {
            out.push(s[i]);
        }
        assert(s@.subrange(from as int, i + 1).drop_last() =~= s@.subrange(from as int, i as int));
        assert(out@ =~= old(out)@ + strip_ticks(s@.subrange(from as int, i + 1)));
        i = i + 1;
    }
}

/// A code line: a space at either end becomes a no-break space (markdown
/// trims one space off each end of a code span).
pub open spec fn fix_ends(l: Seq<char>) -> Seq<char> {
    Seq::new(
        l.len(),
        |k: int|
            if (k == 0 || k == l.len() - 1) && l[k] == ' ' {
                nbsp()
            } else {
                l[k]
            },
    )
}

/// One code span per non-empty line.
pub open spec fn code_line(l: Seq<char>) -> Seq<char> {
    if l.len() == 0 {
        seq![]
    } else {
        seq!['`'] + fix_ends(l) + seq!['`']
    }
}

/// The lines of `s` from `p` on, each through `code_line`, newline-joined.
pub open spec fn code_lines(s: Seq<char>, p: int) -> Seq<char>
    decreases s.len() + 1 - p,
{
    if p < 0 || p > s.len() {
        seq![]
    } else {
        let q = next_nl(s, p);
        proof {
            lemma_next_nl(s, p);
        }
        if q < s.len() {
            code_line(s.subrange(p, q)) + seq!['\n'] + code_lines(s, q + 1)
        } else {
            code_line(s.subrange(p, q))
        }
    }
}

/// The markdown for a code token: its text kept verbatim, backticks
/// dropped, one code span per line.
pub open spec fn code_md(s: Seq<char>) -> Seq<char> {
    code_lines(strip_ticks(s), 0)
}

fn push_code_line(out: &mut Vec<char>, s: &Vec<char>, p: usize, q: usize)
    requires
        p <= q <= s@.len(),
    ensures
        final(out)@ == old(out)@ + code_line(s@.subrange(p as int, q as int)),
{
    if p == q {
        assert(s@.subrange(p as int, q as int).len() == 0);
        assert(out@ =~= old(out)@ + code_line(s@.subrange(p as int, q as int)));
        return;
    }
    let ghost l = s@.subrange(p as int, q as int);
    out.push('`');
    let mut i = p;
    while i < q
        invariant
            p <= i <= q <= s@.len(),
            p < q,
            l == s@.subrange(p as int, q as int),
            out@ == old(out)@ + seq!['`'] + fix_ends(l).subrange(0, i - p),
        decreases q - i,
    {
        let c = s[i];
        if (i == p || i == q - 1) && c == ' ' {
            out.push('\u{a0}');
        } else {
            out.push(c);
        }
        assert(fix_ends(l).subrange(0, i + 1 - p) =~= fix_ends(l).subrange(0, i - p).push(
            fix_ends(l)[i - p],
        ));
        i = i + 1;
    }
    out.push('`');
    assert(fix_ends(l).subrange(0, q - p) =~= fix_ends(l));
    assert(out@ =~= old(out)@ + code_line(l));
}

/// Pushes `code_md(s)` onto `out`.
fn push_code_md(out: &mut Vec<char>, s: &Vec<char>)
    ensures
        final(out)@ == old(out)@ + code_md(s@),
{
    let mut f: Vec<char> = Vec::new();
    push_strip_ticks(&mut f, s, 0, s.len());
    assert(s@.subrange(0, s@.len() as int) =~= s@);
    assert(f@ =~= strip_ticks(s@));
    let n = f.len();
    let mut p: usize = 0;
    loop
        invariant_except_break
            n == f@.len(),
            p <= n,
            out@ + code_lines(f@, p as int) == old(out)@ + code_lines(f@, 0),
        ensures
            out@ == old(out)@ + code_lines(f@, 0),
        decreases n + 1 - p,
    {
        let q = next_nl_exec(&f, p);
        proof {
            lemma_next_nl(f@, p as int);
        }
        let ghost prev = out@;
        push_code_line(out, &f, p, q);
        if q < n {
            out.push('\n');
            assert(out@ + code_lines(f@, q + 1) =~= prev + code_lines(f@, p as int));
            p = q + 1;
        } else {
            assert(out@ =~= prev + code_lines(f@, p as int));
            break;
        }
    }
}

/// The spaces a line starts with, counted from `from`.
pub open spec fn lead_end(l: Seq<char>, from: int) -> int
    decreases l.len() - from,
{
    if from >= l.len() {
        l.len() as int
    } else if l[from] == ' ' {
        lead_end(l, from + 1)
    } else {
        from
    }
}

pub proof fn lemma_lead_end(l: Seq<char>, from: int)
    requires
        0 <= from <= l.len(),
    ensures
        from <= lead_end(l, from) <= l.len(),
    decreases l.len() - from,
{
    if from < l.len() && l[from] == ' ' {
        lemma_lead_end(l, from + 1);
    }
}

/// A markdown line kept as a line: a blank line becomes one no-break space
/// and leading spaces become no-break spaces (markdown drops blank lines
/// and indentation, and reads four spaces as a code block).
pub open spec fn keep_line(l: Seq<char>) -> Seq<char> {
    let ind = lead_end(l, 0);
    let rest = l.subrange(ind, l.len() as int);
    if all_space(rest) {
        seq![nbsp()]
    } else {
        Seq::new(ind as nat, |k: int| nbsp()) + rest
    }
}

pub open spec fn keep_lines_from(s: Seq<char>, p: int) -> Seq<char>
    decreases s.len() + 1 - p,
{
    if p < 0 || p > s.len() {
        seq![]
    } else {
        let q = next_nl(s, p);
        proof {
            lemma_next_nl(s, p);
        }
        if q < s.len() {
            keep_line(s.subrange(p, q)) + seq!['\n'] + keep_lines_from(s, q + 1)
        } else {
            keep_line(s.subrange(p, q))
        }
    }
}

/// Every line of `s` through `keep_line`, newline-joined.
pub open spec fn keep_lines(s: Seq<char>) -> Seq<char> {
    keep_lines_from(s, 0)
}

fn push_keep_line(out: &mut Vec<char>, s: &Vec<char>, p: usize, q: usize)
    requires
        p <= q <= s@.len(),
    ensures
        final(out)@ == old(out)@ + keep_line(s@.subrange(p as int, q as int)),
{
    let l = slice_of(s, p, q);
    let n = l.len();
    let mut ind: usize = 0;
    while ind < n && l[ind] == ' '
        invariant
            n == l@.len(),
            ind <= n,
            lead_end(l@, 0) == lead_end(l@, ind as int),
        decreases n - ind,
    {
        ind = ind + 1;
    }
    proof {
        lemma_lead_end(l@, ind as int);
    }
    let ghost rest = l@.subrange(ind as int, n as int);
    let mut blank = true;
    let mut k = ind;
    while k < n
        invariant
            n == l@.len(),
            ind <= k <= n,
            rest == l@.subrange(ind as int, n as int),
            blank == (forall|j: int| ind <= j < k ==> is_space(#[trigger] l@[j])),
        decreases n - k,
    {
        if !is_space_char(l[k]) {
            blank = false;
        }
        k = k + 1;
    }
    assert(blank == all_space(rest)) by {
        if blank {
            assert forall|j: int| 0 <= j < rest.len() implies is_space(#[trigger] rest[j]) by {
                assert(rest[j] == l@[ind + j]);
            }
        } else {
            let j = choose|j: int| ind <= j < n && !is_space(#[trigger] l@[j]);
            assert(rest[j - ind] == l@[j]);
        }
    }
    if blank {
        out.push('\u{a0}');
        assert(out@ =~= old(out)@ + keep_line(l@));
    } else {
        let mut i: usize = 0;
        while i < ind
            invariant
                i <= ind,
                out@ == old(out)@ + Seq::new(i as nat, |j: int| nbsp()),
            decreases ind - i,
        {
            out.push('\u{a0}');
            assert(Seq::new((i + 1) as nat, |j: int| nbsp()) =~= Seq::new(i as nat, |j: int| nbsp()).push(
                nbsp(),
            ));
            i = i + 1;
        }
        push_range(out, &l, ind, n);
        assert(out@ =~= old(out)@ + keep_line(l@));
    }
}

/// `keep_lines(s)`.
fn keep_lines_exec(s: &Vec<char>) -> (out: Vec<char>)
    ensures
        out@ == keep_lines(s@),
{
    let mut out: Vec<char> = Vec::new();
    let n = s.len();
    let mut p: usize = 0;
    loop
        invariant_except_break
            n == s@.len(),
            p <= n,
            out@ + keep_lines_from(s@, p as int) == keep_lines(s@),
        ensures
            out@ == keep_lines(s@),
        decreases n + 1 - p,
    {
        let q = next_nl_exec(s, p);
        proof {
            lemma_next_nl(s@, p as int);
        }
        let ghost prev = out@;
        push_keep_line(&mut out, s, p, q);
        if q < n {
            out.push('\n');
            assert(out@ + keep_lines_from(s@, q + 1) =~= prev + keep_lines_from(s@, p as int));
            p = q + 1;
        } else {
            assert(out@ =~= prev + keep_lines_from(s@, p as int));
            break;
        }
    }
    out
}

// ---------------------------------------------------------------------------
// The markdown rendering
// ---------------------------------------------------------------------------

/// Tokens whose text may hold mentions and links.
pub open spec fn uses_mentions(k: TokenKind) -> bool {
    k == TokenKind::Plain || k == TokenKind::Bold || k == TokenKind::Italic
}

/// The markdown for one token whose text is `part`.
pub open spec fn token_md(
    k: TokenKind,
    part: Seq<char>,
    tg: Seq<(Option<Seq<char>>, Seq<char>)>,
) -> Seq<char> {
    match k {
        TokenKind::Plain => mentions_md(part, 0, 0, tg),
        TokenKind::Code => code_md(part),
        TokenKind::Bold => seq!['*', '*'] + mentions_md(part, 0, 0, tg) + seq!['*', '*'],
        TokenKind::Italic => seq!['*'] + mentions_md(part, 0, 0, tg) + seq!['*'],
        TokenKind::Strike => seq!['~', '~'] + escaped(part) + seq!['~', '~'],
    }
}

/// The mention ids looked up for one token.
pub open spec fn token_ids(t: Seq<char>, tok: (TokenKind, int, int)) -> Seq<Seq<char>> {
    if uses_mentions(tok.0) {
        mention_ids_from(t.subrange(tok.1, tok.2), 0)
    } else {
        seq![]
    }
}

pub open spec fn tokens_ids(t: Seq<char>, toks: Seq<(TokenKind, int, int)>) -> Seq<Seq<char>>
    decreases toks.len(),
{
    if toks.len() == 0 {
        seq![]
    } else {
        token_ids(t, toks[0]) + tokens_ids(t, toks.drop_first())
    }
}

pub open spec fn tokens_md(
    t: Seq<char>,
    toks: Seq<(TokenKind, int, int)>,
    tg: Seq<(Option<Seq<char>>, Seq<char>)>,
) -> Seq<char>
    decreases toks.len(),
{
    if toks.len() == 0 {
        seq![]
    } else {
        token_md(toks[0].0, t.subrange(toks[0].1, toks[0].2), tg) + tokens_md(
            t,
            toks.drop_first(),
            tg.skip(token_ids(t, toks[0]).len() as int),
        )
    }
}

/// The mention ids of a message, in the order they are looked up.
pub open spec fn message_mention_ids(t: Seq<char>) -> Seq<Seq<char>> {
    tokens_ids(t, tokens_of(t))
}

/// The markdown for a message, with `tg` the targets of its mention ids in
/// order: each token rendered, then every line kept a line.
pub open spec fn markdown(t: Seq<char>, tg: Seq<(Option<Seq<char>>, Seq<char>)>) -> Seq<char> {
    keep_lines(tokens_md(t, tokens_of(t), tg))
}

/// `m` is an answer `f` may give for the id `id`.
pub open spec fn answers<F: Fn(&str) -> MentionTarget>(f: F, id: Seq<char>, m: MentionTarget) -> bool {
    exists|s: &str| #![trigger f.ensures((s,), m)] s@ == id && f.ensures((s,), m)
}

/// `f` answered `tg[k]` for the id `ids[k]`, for every `k`.
pub open spec fn resolved_by<F: Fn(&str) -> MentionTarget>(
    f: F,
    ids: Seq<Seq<char>>,
    tg: Seq<MentionTarget>,
) -> bool {
    &&& tg.len() == ids.len()
    &&& forall|k: int| 0 <= k < ids.len() ==> answers(f, ids[k], #[trigger] tg[k])
}

fn message_mention_ids_exec(t: &Vec<char>, toks: &Vec<Token>) -> (ids: Vec<Vec<char>>)
    requires
        toks@.map_values(|tok: Token| token_view(tok)) == tokens_of(t@),
        tokens_within(toks@, t@.len()),
    ensures
        ids@.map_values(|v: Vec<char>| v@) == message_mention_ids(t@),
{
    let ghost tv = toks@.map_values(|tok: Token| token_view(tok));
    let mut ids: Vec<Vec<char>> = Vec::new();
    let mut i: usize = 0;
    assert(tv.skip(0) =~= tv);
    while i < toks.len()
        invariant
            i <= toks@.len(),
            tv == toks@.map_values(|tok: Token| token_view(tok)),
            tv == tokens_of(t@),
            tokens_within(toks@, t@.len()),
            ids@.map_values(|v: Vec<char>| v@) + tokens_ids(t@, tv.skip(i as int)) == tokens_ids(
                t@,
                tv,
            ),
        decreases toks.len() - i,
    {
        let tok = toks[i];
        assert(tv.skip(i as int)[0] == token_view(tok));
        assert(tv.skip(i as int).drop_first() =~= tv.skip(i + 1));
        let ghost prev = ids@.map_values(|v: Vec<char>| v@);
        if tok.kind == TokenKind::Plain || tok.kind == TokenKind::Bold || tok.kind
            == TokenKind::Italic {
            let part = slice_of(t, tok.start, tok.end);
            push_mention_ids(&mut ids, &part);
        }
        assert(ids@.map_values(|v: Vec<char>| v@) + tokens_ids(t@, tv.skip(i + 1)) =~= prev
            + tokens_ids(t@, tv.skip(i as int)));
        i = i + 1;
    }
    assert(tv.skip(toks@.len() as int) =~= Seq::<(TokenKind, int, int)>::empty());
    ids
}

/// The mention ids of a message, in the order they are looked up.
pub fn mention_ids(text: &str) -> (r: Vec<String>)
    ensures
        r@.map_values(|s: String| s@) == message_mention_ids(text@),
{
    let t = chars_of(text);
    let toks = tokens(&t);
    let ids = message_mention_ids_exec(&t, &toks);
    let ghost iv = ids@.map_values(|v: Vec<char>| v@);
    let mut out: Vec<String> = Vec::new();
    let mut i: usize = 0;
    while i < ids.len()
        invariant
            i <= ids@.len(),
            iv == ids@.map_values(|v: Vec<char>| v@),
            out@.map_values(|s: String| s@) =~= iv.take(i as int),
        decreases ids.len() - i,
    {
        let ghost prev = out@;
        let s = string_of(&ids[i]);
        out.push(s);
        assert(out@ =~= prev.push(s));
        assert(iv.take(i + 1) =~= iv.take(i as int).push(iv[i as int]));
        i = i + 1;
    }
    assert(iv.take(ids@.len() as int) =~= iv);
    out
}

fn markdown_exec(t: &Vec<char>, targets: &Vec<MentionTarget>) -> (out: Vec<char>)
    requires
        message_mention_ids(t@).len() <= targets@.len(),
    ensures
        out@ == markdown(t@, targets_view(targets@)),
{
    let toks = tokens(t);
    let ghost tv = toks@.map_values(|tok: Token| token_view(tok));
    let ghost tg = targets_view(targets@);
    let mut md: Vec<char> = Vec::new();
    let mut i: usize = 0;
    let mut k: usize = 0;
    assert(tv.skip(0) =~= tv);
    assert(tg.skip(0) =~= tg);
    while i < toks.len()
        invariant
            i <= toks@.len(),
            tv == toks@.map_values(|tok: Token| token_view(tok)),
            tv == tokens_of(t@),
            tg == targets_view(targets@),
            tokens_within(toks@, t@.len()),
            k + tokens_ids(t@, tv.skip(i as int)).len() == tokens_ids(t@, tv).len(),
            tokens_ids(t@, tv).len() <= targets@.len(),
            md@ + tokens_md(t@, tv.skip(i as int), tg.skip(k as int)) == tokens_md(t@, tv, tg),
        decreases toks.len() - i,
    {
        let tok = toks[i];
        assert(tv.skip(i as int)[0] == token_view(tok));
        assert(tv.skip(i as int).drop_first() =~= tv.skip(i + 1));
        let ghost prev = md@;
        let part = slice_of(t, tok.start, tok.end);
        let ghost used = token_ids(t@, token_view(tok)).len();
        proof {
            assert(tokens_ids(t@, tv.skip(i as int)) =~= token_ids(t@, token_view(tok)) + tokens_ids(
                t@,
                tv.skip(i + 1),
            ));
        }
        let k2: usize;
        match tok.kind {
            TokenKind::Plain => {
                k2 = push_mentions_md(&mut md, &part, targets, k);
            },
            TokenKind::Code => {
                push_code_md(&mut md, &part);
                k2 = k;
            },
            TokenKind::Bold => {
                md.push('*');
                md.push('*');
                k2 = push_mentions_md(&mut md, &part, targets, k);
                md.push('*');
                md.push('*');
            },
            TokenKind::Italic => {
                md.push('*');
                k2 = push_mentions_md(&mut md, &part, targets, k);
                md.push('*');
            },
            TokenKind::Strike => {
                md.push('~');
                md.push('~');
                push_escaped(&mut md, &part, 0, part.len());
                assert(part@.subrange(0, part@.len() as int) =~= part@);
                md.push('~');
                md.push('~');
                k2 = k;
            },
        }
        assert(k2 == k + used);
        assert(tg.skip(k as int).skip(used as int) =~= tg.skip(k2 as int));
        assert(md@ =~= prev + token_md(tok.kind, part@, tg.skip(k as int)));
        assert(md@ + tokens_md(t@, tv.skip(i + 1), tg.skip(k2 as int)) =~= prev + tokens_md(
            t@,
            tv.skip(i as int),
            tg.skip(k as int),
        ));
        k = k2;
        i = i + 1;
    }
    assert(tv.skip(toks@.len() as int) =~= Seq::<(TokenKind, int, int)>::empty());
    assert(tg.skip(0) =~= tg);
    keep_lines_exec(&md)
}

/// The markdown for `text` given the targets of its mention ids, in order.
pub fn to_markdown_with(text: &str, targets: &Vec<MentionTarget>) -> (r: String)
    requires
        message_mention_ids(text@).len() <= targets@.len(),
    ensures
        r@ == markdown(text@, targets_view(targets@)),
{
    let t = chars_of(text);
    let md = markdown_exec(&t, targets);
    string_of(&md)
}

/// Looks up every mention id of `t`, in order.
fn resolve_all<F: Fn(&str) -> MentionTarget>(t: &Vec<char>, resolve: &F) -> (targets: Vec<MentionTarget>)
    requires
        forall|s: &str| (*resolve).requires((s,)),
    ensures
        resolved_by(*resolve, message_mention_ids(t@), targets@),
{
    let toks = tokens(t);
    let ids = message_mention_ids_exec(t, &toks);
    let ghost idv = ids@.map_values(|v: Vec<char>| v@);
    let mut targets: Vec<MentionTarget> = Vec::new();
    let mut i: usize = 0;
    while i < ids.len()
        invariant
            i <= ids@.len(),
            idv == ids@.map_values(|v: Vec<char>| v@),
            targets@.len() == i,
            forall|s: &str| (*resolve).requires((s,)),
            forall|k: int| 0 <= k < i ==> answers(*resolve, idv[k], #[trigger] targets@[k]),
        decreases ids.len() - i,
    {
        let id = string_of(&ids[i]);
        let ids_str = id.as_str();
        let m = resolve(ids_str);
        let ghost gm = m;
        let ghost prev = targets@;
        assert(ids_str@ == idv[i as int]);
        assert((*resolve).ensures((ids_str,), gm));
        assert(answers(*resolve, idv[i as int], gm));
        targets.push(m);
        assert(targets@[i as int] == gm);
        assert forall|k: int| 0 <= k < i + 1 implies answers(*resolve, idv[k], #[trigger] targets@[k]) by {
            if k < i {
                assert(targets@[k] == prev[k]);
            }
        }
        i = i + 1;
    }
    targets
}

/// The markdown for `text`: WhatsApp markers become markdown styles, links
/// and mentions become links (mentions named through `resolve`, called once
/// per id mention, in order), everything else is escaped, and every line of
/// the message stays a line.
pub fn to_markdown<F: Fn(&str) -> MentionTarget>(text: &str, resolve: &F) -> (r: String)
    requires
        forall|s: &str| resolve.requires((s,)),
    ensures
        exists|tg: Seq<MentionTarget>|
            resolved_by(*resolve, message_mention_ids(text@), tg) && r@ == markdown(
                text@,
                targets_view(tg),
            ),
{
    let t = chars_of(text);
    let targets = resolve_all(&t, resolve);
    let md = markdown_exec(&t, &targets);
    string_of(&md)
}

// ---------------------------------------------------------------------------
// The plain rendering and the click map
// ---------------------------------------------------------------------------

/// The links of `s` from `p` on, as spans `(start, end, url)` in chars,
/// shifted by `base`.
pub open spec fn url_spans(s: Seq<char>, p: int, base: int) -> Seq<(int, int, Seq<char>)>
    decreases s.len() - p,
{
    if p < 0 || p >= s.len() {
        seq![]
    } else {
        match url_at(s, p) {
            None => url_spans(s, p + 1, base),
            Some(e) => {
                proof {
                    lemma_url_bounds(s, p);
                }
                seq![(base + p, base + e, s.subrange(p, e))] + url_spans(s, e, base)
            },
        }
    }
}

/// The plain text drawn for text with mentions, and its spans: an id
/// mention shows as "@label" and is a span to its chat (taking the targets
/// `tg` in order), other mentions stay as written, links are spans to
/// themselves. `base` is where the text from `last` lands in the output.
pub open spec fn plain_mentions(
    s: Seq<char>,
    p: int,
    last: int,
    tg: Seq<(Option<Seq<char>>, Seq<char>)>,
    base: int,
) -> (Seq<char>, Seq<(int, int, Seq<char>)>)
    decreases s.len() - p,
{
    if p < 0 || p >= s.len() {
        let rest = s.subrange(last, s.len() as int);
        (rest, url_spans(rest, 0, base))
    } else {
        match mention_at(s, p) {
            None => plain_mentions(s, p + 1, last, tg, base),
            Some((e, a, b)) => {
                proof {
                    lemma_mention_bounds(s, p);
                }
                let pre = s.subrange(last, p);
                let tok = s.subrange(a, b);
                let b1 = base + pre.len();
                if all_ascii_digits(tok) {
                    let label = seq!['@'] + label_of(tg[0], tok);
                    let r = plain_mentions(s, e, e, tg.drop_first(), b1 + label.len());
                    (
                        pre + label + r.0,
                        url_spans(pre, 0, base) + seq![(b1, b1 + label.len(), tg[0].1)] + r.1,
                    )
                } else {
                    let whole = s.subrange(p, e);
                    let r = plain_mentions(s, e, e, tg, b1 + whole.len());
                    (pre + whole + r.0, url_spans(pre, 0, base) + r.1)
                }
            },
        }
    }
}

/// The plain text of one token whose text is `part`, with its spans.
pub open spec fn token_plain(
    k: TokenKind,
    part: Seq<char>,
    tg: Seq<(Option<Seq<char>>, Seq<char>)>,
    base: int,
) -> (Seq<char>, Seq<(int, int, Seq<char>)>) {
    match k {
        TokenKind::Code => (strip_ticks(part), seq![]),
        TokenKind::Strike => (part, seq![]),
        _ => plain_mentions(part, 0, 0, tg, base),
    }
}

pub open spec fn tokens_plain(
    t: Seq<char>,
    toks: Seq<(TokenKind, int, int)>,
    tg: Seq<(Option<Seq<char>>, Seq<char>)>,
    base: int,
) -> (Seq<char>, Seq<(int, int, Seq<char>)>)
    decreases toks.len(),
{
    if toks.len() == 0 {
        (seq![], seq![])
    } else {
        let h = token_plain(toks[0].0, t.subrange(toks[0].1, toks[0].2), tg, base);
        let r = tokens_plain(
            t,
            toks.drop_first(),
            tg.skip(token_ids(t, toks[0]).len() as int),
            base + h.0.len(),
        );
        (h.0 + r.0, h.1 + r.1)
    }
}

/// What the styled text of a message draws, as plain text, with the spans
/// (in chars) that are links or mentions and where they lead.
pub open spec fn plain(t: Seq<char>, tg: Seq<(Option<Seq<char>>, Seq<char>)>) -> (
    Seq<char>,
    Seq<(int, int, Seq<char>)>,
) {
    tokens_plain(t, tokens_of(t), tg, 0)
}

/// The spans with char positions in `text` turned into byte offsets.
pub open spec fn byte_spans(text: Seq<char>, spans: Seq<(int, int, Seq<char>)>) -> Seq<
    (int, int, Seq<char>),
> {
    spans.map_values(
        |sp: (int, int, Seq<char>)|
            (
                byte_len(text.take(sp.0)) as int,
                byte_len(text.take(sp.1)) as int,
                sp.2,
            ),
    )
}

pub open spec fn span_view(sp: (usize, usize, Vec<char>)) -> (int, int, Seq<char>) {
    (sp.0 as int, sp.1 as int, sp.2@)
}

pub open spec fn spans_view(v: Seq<(usize, usize, Vec<char>)>) -> Seq<(int, int, Seq<char>)> {
    v.map_values(|sp: (usize, usize, Vec<char>)| span_view(sp))
}

pub open spec fn spans_within(v: Seq<(usize, usize, Vec<char>)>, n: nat) -> bool {
    forall|i: int| #![trigger v[i]] 0 <= i < v.len() ==> v[i].0 <= v[i].1 && v[i].1 <= n
}

proof fn lemma_spans_within_push(v: Seq<(usize, usize, Vec<char>)>, x: (usize, usize, Vec<char>), n: nat)
    requires
        spans_within(v, n),
        x.0 <= x.1 <= n,
    ensures
        spans_within(v.push(x), n),
{
    assert forall|i: int| #![trigger v.push(x)[i]] 0 <= i < v.push(x).len() implies v.push(x)[i].0 <= v.push(x)[i].1 && v.push(x)[i].1 <= n by {
        if i < v.len() {
            assert(v.push(x)[i] == v[i]);
        }
    }
}

proof fn lemma_spans_within_grow(v: Seq<(usize, usize, Vec<char>)>, n: nat, m: nat)
    requires
        spans_within(v, n),
        n <= m,
    ensures
        spans_within(v, m),
{
    assert forall|i: int| #![trigger v[i]] 0 <= i < v.len() implies v[i].0 <= v[i].1 && v[i].1 <= m by {
        assert(v[i].0 <= v[i].1 <= n);
    }
}

/// Pushes the plain text of `s` (unchanged) onto `text` and its link spans
/// onto `spans`.
fn push_plain_links(text: &mut Vec<char>, spans: &mut Vec<(usize, usize, Vec<char>)>, s: &Vec<char>)
    requires
        spans_within(old(spans)@, old(text)@.len()),
    ensures
        final(text)@ == old(text)@ + s@,
        spans_view(final(spans)@) == spans_view(old(spans)@) + url_spans(
            s@,
            0,
            old(text)@.len() as int,
        ),
        spans_within(final(spans)@, final(text)@.len()),
{
    let base = text.len();
    push_all(text, s);
    let tl = text.len();
    proof {
        lemma_spans_within_grow(spans@, base as nat, tl as nat);
    }
    let n = s.len();
    let ghost b = base as int;
    let mut p: usize = 0;
    while p < n
        invariant
            n == s@.len(),
            tl == text@.len(),
            tl == base + n,
            p <= n,
            b == base,
            spans_within(spans@, tl as nat),
            spans_view(spans@) + url_spans(s@, p as int, b) == spans_view(old(spans)@) + url_spans(
                s@,
                0,
                b,
            ),
        decreases n - p,
    {
        match url_at_exec(s, p) {
            None => {
                p = p + 1;
            },
            Some(e) => {
                proof {
                    lemma_url_bounds(s@, p as int);
                }
                let ghost prev = spans@;
                let item = (base + p, base + e, slice_of(s, p, e));
                proof {
                    lemma_spans_within_push(prev, item, tl as nat);
                }
                spans.push(item);
                assert(spans_view(spans@) =~= spans_view(prev) + seq![
                    (b + p, b + e, s@.subrange(p as int, e as int)),
                ]);
                p = e;
            },
        }
    }
}

/// Pushes `plain_mentions(s, 0, 0, targets[k..], base)` onto `text` and
/// `spans` (`base` being the current length of `text`); gives the index of
/// the first target not used.
fn push_plain_mentions(
    text: &mut Vec<char>,
    spans: &mut Vec<(usize, usize, Vec<char>)>,
    s: &Vec<char>,
    targets: &Vec<MentionTarget>,
    k: usize,
) -> (k2: usize)
    requires
        k + mention_ids_from(s@, 0).len() <= targets@.len(),
        spans_within(old(spans)@, old(text)@.len()),
    ensures
        ({
            let r = plain_mentions(
                s@,
                0,
                0,
                targets_view(targets@).skip(k as int),
                old(text)@.len() as int,
            );
            &&& final(text)@ == old(text)@ + r.0
            &&& spans_view(final(spans)@) == spans_view(old(spans)@) + r.1
        }),
        spans_within(final(spans)@, final(text)@.len()),
        k2 == k + mention_ids_from(s@, 0).len(),
{
    let n = s.len();
    let nt = targets.len();
    let ghost tvs = targets_view(targets@);
    let ghost t0 = old(text)@;
    let ghost sp0 = spans_view(old(spans)@);
    let ghost total = plain_mentions(s@, 0, 0, tvs.skip(k as int), t0.len() as int);
    let mut p: usize = 0;
    let mut last: usize = 0;
    let mut kk = k;
    while p < n
        invariant
            n == s@.len(),
            nt == targets@.len(),
            last <= p <= n,
            tvs == targets_view(targets@),
            k <= kk,
            kk + mention_ids_from(s@, p as int).len() == k + mention_ids_from(s@, 0).len(),
            k + mention_ids_from(s@, 0).len() <= targets@.len(),
            spans_within(spans@, text@.len()),
            total == plain_mentions(s@, 0, 0, tvs.skip(k as int), t0.len() as int),
            ({
                let r = plain_mentions(
                    s@,
                    p as int,
                    last as int,
                    tvs.skip(kk as int),
                    text@.len() as int,
                );
                &&& text@ + r.0 == t0 + total.0
                &&& spans_view(spans@) + r.1 == sp0 + total.1
            }),
        decreases n - p,
    {
        match mention_at_exec(s, p) {
            None => {
                p = p + 1;
            },
            Some((e, a, b)) => {
                proof {
                    lemma_mention_bounds(s@, p as int);
                }
                let ghost prev_t = text@;
                let ghost prev_s = spans_view(spans@);
                let seg = slice_of(s, last, p);
                push_plain_links(text, spans, &seg);
                let ghost b1 = text@.len() as int;
                if all_ascii_digits_exec(s, a, b) {
                    assert(kk < targets@.len());
                    let m = &targets[kk];
                    let start = text.len();
                    text.push('@');
                    match &m.name {
                        Some(nm) => {
                            let v = chars_of(nm.as_str());
                            push_all(text, &v);
                        },
                        None => {
                            push_range(text, s, a, b);
                        },
                    }
                    let end = text.len();
                    let ghost label = seq!['@'] + label_of(target_view(*m), s@.subrange(a as int, b as int));
                    assert(text@ =~= prev_t + seg@ + label);
                    let ghost before_push = spans@;
                    let item = (start, end, chars_of(m.jid.as_str()));
                    proof {
                        lemma_spans_within_grow(before_push, start as nat, text@.len());
                        lemma_spans_within_push(before_push, item, text@.len());
                    }
                    spans.push(item);
                    assert(tvs.skip(kk as int)[0] == target_view(*m));
                    assert(tvs.skip(kk as int).drop_first() =~= tvs.skip(kk + 1));
                    assert(spans_view(spans@) =~= prev_s + url_spans(seg@, 0, prev_t.len() as int)
                        + seq![(b1, b1 + label.len(), target_view(*m).1)]);
                    let ghost r_new = plain_mentions(s@, e as int, e as int, tvs.skip(kk + 1), text@.len() as int);
                    let ghost r_old = plain_mentions(s@, p as int, last as int, tvs.skip(kk as int), prev_t.len() as int);
                    assert(r_old.0 =~= seg@ + label + r_new.0);
                    assert(r_old.1 =~= url_spans(seg@, 0, prev_t.len() as int) + seq![(b1, b1 + label.len(), target_view(*m).1)] + r_new.1);
                    assert(text@ + r_new.0 =~= prev_t + r_old.0);
                    assert(spans_view(spans@) + r_new.1 =~= prev_s + r_old.1);
                    kk = kk + 1;
                } else {
                    let ghost before_len = text@.len();
                    push_range(text, s, p, e);
                    proof {
                        lemma_spans_within_grow(spans@, before_len, text@.len());
                    }
                    let ghost r_new = plain_mentions(s@, e as int, e as int, tvs.skip(kk as int), text@.len() as int);
                    let ghost r_old = plain_mentions(s@, p as int, last as int, tvs.skip(kk as int), prev_t.len() as int);
                    assert(r_old.0 =~= seg@ + s@.subrange(p as int, e as int) + r_new.0);
                    assert(text@ + r_new.0 =~= prev_t + r_old.0);
                    assert(spans_view(spans@) + r_new.1 =~= prev_s + r_old.1);
                }
                p = e;
                last = e;
            },
        }
    }
    let ghost prev_t = text@;
    let ghost prev_s = spans_view(spans@);
    let seg = slice_of(s, last, n);
    push_plain_links(text, spans, &seg);
    assert(text@ =~= t0 + total.0);
    assert(spans_view(spans@) =~= sp0 + total.1);
    kk
}

/// The plain text and char spans of a message.
fn plain_exec(t: &Vec<char>, targets: &Vec<MentionTarget>) -> (r: (Vec<char>, Vec<(usize, usize, Vec<char>)>))
    requires
        message_mention_ids(t@).len() <= targets@.len(),
    ensures
        r.0@ == plain(t@, targets_view(targets@)).0,
        spans_view(r.1@) == plain(t@, targets_view(targets@)).1,
        spans_within(r.1@, r.0@.len()),
{
    let toks = tokens(t);
    let ghost tv = toks@.map_values(|tok: Token| token_view(tok));
    let ghost tg = targets_view(targets@);
    let mut text: Vec<char> = Vec::new();
    let mut spans: Vec<(usize, usize, Vec<char>)> = Vec::new();
    let mut i: usize = 0;
    let mut k: usize = 0;
    assert(tv.skip(0) =~= tv);
    assert(tg.skip(0) =~= tg);
    assert(spans_view(spans@) =~= Seq::<(int, int, Seq<char>)>::empty());
    while i < toks.len()
        invariant
            i <= toks@.len(),
            tv == toks@.map_values(|tok: Token| token_view(tok)),
            tv == tokens_of(t@),
            tg == targets_view(targets@),
            tokens_within(toks@, t@.len()),
            k + tokens_ids(t@, tv.skip(i as int)).len() == tokens_ids(t@, tv).len(),
            tokens_ids(t@, tv).len() <= targets@.len(),
            spans_within(spans@, text@.len()),
            ({
                let r = tokens_plain(t@, tv.skip(i as int), tg.skip(k as int), text@.len() as int);
                let all = tokens_plain(t@, tv, tg, 0);
                &&& text@ + r.0 == all.0
                &&& spans_view(spans@) + r.1 == all.1
            }),
        decreases toks.len() - i,
    {
        let tok = toks[i];
        assert(tv.skip(i as int)[0] == token_view(tok));
        assert(tv.skip(i as int).drop_first() =~= tv.skip(i + 1));
        let ghost prev_t = text@;
        let ghost prev_s = spans_view(spans@);
        let part = slice_of(t, tok.start, tok.end);
        let ghost used = token_ids(t@, token_view(tok)).len();
        proof {
            assert(tokens_ids(t@, tv.skip(i as int)) =~= token_ids(t@, token_view(tok)) + tokens_ids(
                t@,
                tv.skip(i + 1),
            ));
        }
        let k2: usize;
        match tok.kind {
            TokenKind::Code => {
                push_strip_ticks(&mut text, &part, 0, part.len());
                assert(part@.subrange(0, part@.len() as int) =~= part@);
                proof {
                    lemma_spans_within_grow(spans@, prev_t.len(), text@.len());
                }
                k2 = k;
            },
            TokenKind::Strike => {
                push_all(&mut text, &part);
                proof {
                    lemma_spans_within_grow(spans@, prev_t.len(), text@.len());
                }
                k2 = k;
            },
            _ => {
                k2 = push_plain_mentions(&mut text, &mut spans, &part, targets, k);
            },
        }
        assert(k2 == k + used);
        assert(tg.skip(k as int).skip(used as int) =~= tg.skip(k2 as int));
        let ghost h = token_plain(tok.kind, part@, tg.skip(k as int), prev_t.len() as int);
        assert(text@ =~= prev_t + h.0);
        assert(spans_view(spans@) =~= prev_s + h.1);
        proof {
            let r_old = tokens_plain(t@, tv.skip(i as int), tg.skip(k as int), prev_t.len() as int);
            let r_new = tokens_plain(t@, tv.skip(i + 1), tg.skip(k2 as int), text@.len() as int);
            assert(r_old.0 =~= h.0 + r_new.0);
            assert(r_old.1 =~= h.1 + r_new.1);
            assert(text@ + r_new.0 =~= prev_t + r_old.0);
            assert(spans_view(spans@) + r_new.1 =~= prev_s + r_old.1);
        }
        k = k2;
        i = i + 1;
    }
    assert(tv.skip(toks@.len() as int) =~= Seq::<(TokenKind, int, int)>::empty());
    assert(text@ =~= plain(t@, tg).0);
    assert(spans_view(spans@) =~= plain(t@, tg).1);
    (text, spans)
}

proof fn lemma_take_step(t: Seq<char>, k: int)
    requires
        0 <= k < t.len(),
    ensures
        byte_len(t.take(k + 1)) == byte_len(t.take(k)) + char_len(t[k]),
{
    assert(t.take(k + 1) =~= t.take(k).push(t[k]));
    lemma_byte_len_push(t.take(k), t[k]);
}

proof fn lemma_take_le(t: Seq<char>, k: int)
    requires
        0 <= k <= t.len(),
    ensures
        byte_len(t.take(k)) <= byte_len(t),
{
    assert(t =~= t.take(k) + t.skip(k));
    lemma_byte_len_concat(t.take(k), t.skip(k));
}

/// The byte offset of every char position of `text` (one more than there
/// are chars), or `None` when the byte length does not fit in `usize`.
fn byte_offsets(text: &Vec<char>) -> (r: Option<Vec<usize>>)
    ensures
        r matches Some(offs) ==> offs@.len() == text@.len() + 1 && forall|k: int|
            0 <= k <= text@.len() ==> #[trigger] offs@[k] == byte_len(text@.take(k)),
        r is None ==> byte_len(text@) > usize::MAX,
{
    let n = text.len();
    let mut offs: Vec<usize> = Vec::new();
    offs.push(0);
    assert(text@.take(0) =~= Seq::<char>::empty());
    let mut i: usize = 0;
    while i < n
        invariant
            n == text@.len(),
            i <= n,
            offs@.len() == i + 1,
            forall|k: int| 0 <= k <= i ==> #[trigger] offs@[k] == byte_len(text@.take(k)),
        decreases n - i,
    {
        let w = char_len_of(text[i]);
        let cur = offs[i];
        proof {
            lemma_take_step(text@, i as int);
        }
        if cur > usize::MAX - w {
            proof {
                lemma_take_le(text@, i + 1);
            }
            return None;
        }
        offs.push(cur + w);
        i = i + 1;
    }
    Some(offs)
}

/// What a styled message draws, as plain text, plus the byte ranges (in
/// that text) that are links or mentions and where they lead.
pub struct PlainRender {
    pub text: String,
    pub spans: Vec<(usize, usize, String)>,
}

pub open spec fn render_spans_view(v: Seq<(usize, usize, String)>) -> Seq<(int, int, Seq<char>)> {
    v.map_values(|sp: (usize, usize, String)| (sp.0 as int, sp.1 as int, sp.2@))
}

/// The plain rendering is `plain(t, tg)`, its spans in bytes (when the
/// text's byte length fits in `usize`).
pub open spec fn renders_plain(
    r: PlainRender,
    t: Seq<char>,
    tg: Seq<(Option<Seq<char>>, Seq<char>)>,
) -> bool {
    &&& r.text@ == plain(t, tg).0
    &&& byte_len(plain(t, tg).0) <= usize::MAX ==> render_spans_view(r.spans@) == byte_spans(
        plain(t, tg).0,
        plain(t, tg).1,
    )
}

fn render_plain_exec(t: &Vec<char>, targets: &Vec<MentionTarget>) -> (r: PlainRender)
    requires
        message_mention_ids(t@).len() <= targets@.len(),
    ensures
        renders_plain(r, t@, targets_view(targets@)),
{
    let (pt, sp) = plain_exec(t, targets);
    let text = string_of(&pt);
    let mut spans: Vec<(usize, usize, String)> = Vec::new();
    match byte_offsets(&pt) {
        Some(offs) => {
            let ghost want = byte_spans(pt@, spans_view(sp@));
            let mut i: usize = 0;
            while i < sp.len()
                invariant
                    i <= sp@.len(),
                    spans_within(sp@, pt@.len()),
                    offs@.len() == pt@.len() + 1,
                    forall|k: int| 0 <= k <= pt@.len() ==> #[trigger] offs@[k] == byte_len(pt@.take(k)),
                    want == byte_spans(pt@, spans_view(sp@)),
                    render_spans_view(spans@) == want.take(i as int),
                decreases sp.len() - i,
            {
                let a = sp[i].0;
                let b = sp[i].1;
                assert(a <= b && b <= pt@.len());
                let item = (offs[a], offs[b], string_of(&sp[i].2));
                let ghost prev = spans@;
                spans.push(item);
                assert(render_spans_view(spans@) =~= render_spans_view(prev).push(
                    (offs@[a as int] as int, offs@[b as int] as int, sp@[i as int].2@),
                ));
                assert(want.take(i + 1) =~= want.take(i as int).push(want[i as int]));
                assert(want[i as int] == (byte_len(pt@.take(a as int)) as int, byte_len(pt@.take(b as int)) as int, sp@[i as int].2@));
                assert(render_spans_view(spans@) =~= want.take(i + 1));
                i = i + 1;
            }
            assert(want.take(sp@.len() as int) =~= want);
        },
        None => {},
    }
    PlainRender { text, spans }
}

/// The plain rendering of `text` given the targets of its mention ids, in
/// order.
pub fn render_plain_with(text: &str, targets: &Vec<MentionTarget>) -> (r: PlainRender)
    requires
        message_mention_ids(text@).len() <= targets@.len(),
    ensures
        renders_plain(r, text@, targets_view(targets@)),
{
    let t = chars_of(text);
    render_plain_exec(&t, targets)
}

/// What the styled text of `text` draws, as plain text, and the byte
/// ranges in it that are links or mentions with where they lead (mentions
/// named through `resolve`, called once per id mention, in order). This is
/// the text laid over the styled one, and the map a click is resolved
/// against.
pub fn render_plain<F: Fn(&str) -> MentionTarget>(text: &str, resolve: &F) -> (r: PlainRender)
    requires
        forall|s: &str| resolve.requires((s,)),
    ensures
        exists|tg: Seq<MentionTarget>|
            resolved_by(*resolve, message_mention_ids(text@), tg) && renders_plain(
                r,
                text@,
                targets_view(tg),
            ),
{
    let t = chars_of(text);
    let targets = resolve_all(&t, resolve);
    render_plain_exec(&t, &targets)
}

/// The target of the first span holding byte `offset`.
pub open spec fn first_hit(spans: Seq<(int, int, Seq<char>)>, offset: int) -> Option<Seq<char>>
    decreases spans.len(),
{
    if spans.len() == 0 {
        None
    } else if spans[0].0 <= offset < spans[0].1 {
        Some(spans[0].2)
    } else {
        first_hit(spans.drop_first(), offset)
    }
}

pub open spec fn opt_string_view(o: Option<String>) -> Option<Seq<char>> {
    match o {
        Some(s) => Some(s@),
        None => None,
    }
}

fn first_hit_exec(r: &PlainRender, offset: usize) -> (o: Option<String>)
    ensures
        opt_string_view(o) == first_hit(render_spans_view(r.spans@), offset as int),
{
    let ghost v = render_spans_view(r.spans@);
    let mut i: usize = 0;
    assert(v.skip(0) =~= v);
    while i < r.spans.len()
        invariant
            i <= r.spans@.len(),
            v == render_spans_view(r.spans@),
            first_hit(v, offset as int) == first_hit(v.skip(i as int), offset as int),
        decreases r.spans.len() - i,
    {
        assert(v.skip(i as int)[0] == v[i as int]);
        assert(v.skip(i as int).drop_first() =~= v.skip(i + 1));
        if r.spans[i].0 <= offset && offset < r.spans[i].1 {
            return Some(r.spans[i].2.clone());
        }
        i = i + 1;
    }
    assert(v.skip(i as int) =~= Seq::<(int, int, Seq<char>)>::empty());
    None
}

/// The link or mention under byte `offset` of the plain rendering of
/// `text`, given the targets of its mention ids, in order.
pub fn target_at_with(text: &str, offset: usize, targets: &Vec<MentionTarget>) -> (o: Option<String>)
    requires
        message_mention_ids(text@).len() <= targets@.len(),
    ensures
        byte_len(plain(text@, targets_view(targets@)).0) <= usize::MAX ==> opt_string_view(o)
            == first_hit(
            byte_spans(plain(text@, targets_view(targets@)).0, plain(text@, targets_view(targets@)).1),
            offset as int,
        ),
{
    let r = render_plain_with(text, targets);
    first_hit_exec(&r, offset)
}

/// The link or mention under byte `offset` of the plain rendering of
/// `text` (mentions named through `resolve`).
pub fn target_at<F: Fn(&str) -> MentionTarget>(text: &str, offset: usize, resolve: &F) -> (o: Option<String>)
    requires
        forall|s: &str| resolve.requires((s,)),
    ensures
        exists|tg: Seq<MentionTarget>|
            resolved_by(*resolve, message_mention_ids(text@), tg) && (byte_len(
                plain(text@, targets_view(tg)).0,
            ) <= usize::MAX ==> opt_string_view(o) == first_hit(
                byte_spans(plain(text@, targets_view(tg)).0, plain(text@, targets_view(tg)).1),
                offset as int,
            )),
{
    let r = render_plain(text, resolve);
    first_hit_exec(&r, offset)
}

// ---------------------------------------------------------------------------
// The mention being typed
// ---------------------------------------------------------------------------

/// The char position of a byte cursor: from `k` on, take chars while their
/// bytes still fit in `cursor`.
pub open spec fn chars_within(t: Seq<char>, k: int, cursor: int) -> int
    decreases t.len() - k,
{
    if k < 0 || k >= t.len() {
        k
    } else if byte_len(t.take(k + 1)) <= cursor {
        chars_within(t, k + 1, cursor)
    } else {
        k
    }
}

/// The position of the last `@` before `k`, or -1.
pub open spec fn last_at_sign(t: Seq<char>, k: int) -> int
    decreases k,
{
    if k <= 0 {
        -1
    } else if t[k - 1] == '@' {
        k - 1
    } else {
        last_at_sign(t, k - 1)
    }
}

/// The "@query" being typed right before the byte `cursor` (the byte
/// offsets of the `@` and of the cursor, moved back onto a char boundary
/// and into the text): the `@` starts a word and the query holds no
/// whitespace.
pub open spec fn mention_query_at(t: Seq<char>, cursor: int) -> Option<(int, int)> {
    let c = chars_within(t, 0, cursor);
    let at = last_at_sign(t, c);
    if at < 0 {
        None
    } else if !no_space(t.subrange(at + 1, c)) {
        None
    } else if at > 0 && !is_space(t[at - 1]) {
        None
    } else {
        Some((byte_len(t.take(at)) as int, byte_len(t.take(c)) as int))
    }
}

pub proof fn lemma_last_at_sign(t: Seq<char>, k: int)
    requires
        0 <= k <= t.len(),
    ensures
        -1 <= last_at_sign(t, k) < k,
        last_at_sign(t, k) >= 0 ==> t[last_at_sign(t, k)] == '@',
    decreases k,
{
    if k > 0 && t[k - 1] != '@' {
        lemma_last_at_sign(t, k - 1);
    }
}

/// The "@query" being typed right before the cursor (byte offsets of the
/// "@" and of the cursor), when the cursor sits inside one.
pub fn mention_query(text: &str, cursor: usize) -> (r: Option<(usize, usize)>)
    ensures
        match mention_query_at(text@, cursor as int) {
            Some((a, c)) => r == Some((a as usize, c as usize)),
            None => r is None,
        },
{
    let t = chars_of(text);
    let n = t.len();
    let mut offs: Vec<usize> = Vec::new();
    offs.push(0);
    assert(t@.take(0) =~= Seq::<char>::empty());
    let mut c: usize = 0;
    loop
        invariant_except_break
            n == t@.len(),
            c <= n,
            offs@.len() == c + 1,
            forall|k: int| 0 <= k <= c ==> #[trigger] offs@[k] == byte_len(t@.take(k)),
            offs@[c as int] <= cursor,
            chars_within(t@, 0, cursor as int) == chars_within(t@, c as int, cursor as int),
        ensures
            n == t@.len(),
            c <= n,
            offs@.len() == c + 1,
            forall|k: int| 0 <= k <= c ==> #[trigger] offs@[k] == byte_len(t@.take(k)),
            offs@[c as int] <= cursor,
            chars_within(t@, 0, cursor as int) == c,
        decreases n - c,
    {
        if c >= n {
            break;
        }
        let w = char_len_of(t[c]);
        let cur = offs[c];
        proof {
            lemma_take_step(t@, c as int);
        }
        if w > cursor - cur {
            break;
        }
        offs.push(cur + w);
        c = c + 1;
    }
    let mut j = c;
    #[verifier::loop_isolation(false)]
    while j > 0 && t[j - 1] != '@'
        invariant
            j <= c <= n,
            n == t@.len(),
            last_at_sign(t@, c as int) == last_at_sign(t@, j as int),
        decreases j,
    {
        j = j - 1;
    }
    if j == 0 {
        return None;
    }
    let at = j - 1;
    proof {
        lemma_last_at_sign(t@, c as int);
        assert(last_at_sign(t@, j as int) == at);
    }
    let mut q = at + 1;
    #[verifier::loop_isolation(false)]
    while q < c
        invariant
            at + 1 <= q <= c <= n,
            n == t@.len(),
            forall|k: int| at + 1 <= k < q ==> !is_space(#[trigger] t@[k]),
        decreases c - q,
    {
        if is_space_char(t[q]) {
            assert(!no_space(t@.subrange(at + 1, c as int))) by {
                assert(t@.subrange(at + 1, c as int)[q - at - 1] == t@[q as int]);
            }
            return None;
        }
        q = q + 1;
    }
    assert(no_space(t@.subrange(at + 1, c as int))) by {
        assert forall|k: int| 0 <= k < c - at - 1 implies !is_space(#[trigger] t@.subrange(at + 1, c as int)[k]) by {
            assert(t@.subrange(at + 1, c as int)[k] == t@[at + 1 + k]);
        }
    }
    if at > 0 && !is_space_char(t[at - 1]) {
        return None;
    }
    Some((offs[at], offs[c]))
}

// ---------------------------------------------------------------------------
// Whether a message needs the styled rendering at all
// ---------------------------------------------------------------------------

/// The text holds a marker pair, a mention or a link.
pub open spec fn has_markup_spec(t: Seq<char>) -> bool {
    ||| exists|i: int| #[trigger] marker_at(t, i) is Some
    ||| exists|i: int| #[trigger] mention_at(t, i) is Some
    ||| exists|i: int| #[trigger] url_at(t, i) is Some
}

/// True when `text` holds a marker pair, a mention or a link.
pub fn has_markup(text: &str) -> (r: bool)
    ensures
        r == has_markup_spec(text@),
{
    let t = chars_of(text);
    let n = t.len();
    let mut i: usize = 0;
    while i < n
        invariant
            n == t@.len(),
            t@ == text@,
            i <= n,
            forall|k: int| 0 <= k < i ==> #[trigger] marker_at(t@, k) is None,
            forall|k: int| 0 <= k < i ==> #[trigger] mention_at(t@, k) is None,
            forall|k: int| 0 <= k < i ==> #[trigger] url_at(t@, k) is None,
        decreases n - i,
    {
        if marker_at_exec(&t, i).is_some() {
            assert(marker_at(t@, i as int) is Some);
            assert(has_markup_spec(t@));
            return true;
        }
        if mention_at_exec(&t, i).is_some() {
            assert(mention_at(t@, i as int) is Some);
            assert(has_markup_spec(t@));
            return true;
        }
        if url_at_exec(&t, i).is_some() {
            assert(url_at(t@, i as int) is Some);
            assert(has_markup_spec(t@));
            return true;
        }
        i = i + 1;
    }
    assert forall|k: int| #[trigger] marker_at(t@, k) is None by {
        if !(0 <= k < n) {
        }
    }
    assert forall|k: int| #[trigger] mention_at(t@, k) is None by {
        if !(0 <= k < n) {
        }
    }
    assert forall|k: int| #[trigger] url_at(t@, k) is None by {
        if !(0 <= k < n) {
        }
    }
    false
}

// ---------------------------------------------------------------------------
// Laws
// ---------------------------------------------------------------------------

/// The number of newlines in `s`.
pub open spec fn newlines(s: Seq<char>) -> nat
    decreases s.len(),
{
    if s.len() == 0 {
        0
    } else {
        newlines(s.drop_last()) + if s.last() == '\n' {
            1nat
        } else {
            0nat
        }
    }
}

proof fn lemma_nl_concat(a: Seq<char>, b: Seq<char>)
    ensures
        newlines(a + b) == newlines(a) + newlines(b),
    decreases b.len(),
{
    if b.len() == 0 {
        assert(a + b =~= a);
    } else {
        assert((a + b).drop_last() =~= a + b.drop_last());
        lemma_nl_concat(a, b.drop_last());
    }
}

proof fn lemma_nl_none(s: Seq<char>)
    requires
        forall|k: int| 0 <= k < s.len() ==> s[k] != '\n',
    ensures
        newlines(s) == 0,
    decreases s.len(),
{
    if s.len() > 0 {
        lemma_nl_none(s.drop_last());
    }
}

proof fn lemma_nl_split(s: Seq<char>, a: int, b: int, c: int)
    requires
        0 <= a <= b <= c <= s.len(),
    ensures
        newlines(s.subrange(a, c)) == newlines(s.subrange(a, b)) + newlines(s.subrange(b, c)),
{
    assert(s.subrange(a, c) =~= s.subrange(a, b) + s.subrange(b, c));
    lemma_nl_concat(s.subrange(a, b), s.subrange(b, c));
}

proof fn lemma_nl_escaped(s: Seq<char>)
    ensures
        newlines(escaped(s)) == newlines(s),
    decreases s.len(),
{
    if s.len() > 0 {
        let x = escaped(s.drop_last());
        lemma_nl_escaped(s.drop_last());
        if md_special(s.last()) {
            let tail = seq!['\\', s.last()];
            lemma_nl_concat(x, tail);
            lemma_nl_none(tail);
        } else {
            assert(x.push(s.last()).drop_last() =~= x);
        }
    }
}

/// Concatenation of the newline counts of literal pieces with no newline.
proof fn lemma_nl_lit(x: Seq<char>)
    requires
        forall|k: int| 0 <= k < x.len() ==> x[k] != '\n',
    ensures
        newlines(x) == 0,
{
    lemma_nl_none(x);
}

proof fn lemma_url_no_newline(s: Seq<char>, p: int)
    requires
        url_at(s, p) is Some,
    ensures
        forall|k: int| p <= k < url_at(s, p)->0 ==> s[k] != '\n',
{
    let j = if p + 4 < s.len() && is_s_letter(s[p + 4]) {
        p + 5
    } else {
        p + 4
    };
    lemma_url_run_end(s, j + 3);
    assert forall|k: int| p <= k < url_at(s, p)->0 implies s[k] != '\n' by {
        if k >= j + 3 {
            assert(is_url_char(s[k]));
        }
    }
}

proof fn lemma_nl_links(s: Seq<char>, p: int, last: int)
    requires
        0 <= last <= p <= s.len(),
    ensures
        newlines(links_md(s, p, last)) == newlines(s.subrange(last, s.len() as int)),
    decreases s.len() - p,
{
    if p >= s.len() {
        lemma_nl_escaped(s.subrange(last, s.len() as int));
    } else {
        match url_at(s, p) {
            None => {
                lemma_nl_links(s, p + 1, last);
            },
            Some(e) => {
                lemma_url_bounds(s, p);
                lemma_url_no_newline(s, p);
                lemma_nl_links(s, e, e);
                let url = s.subrange(p, e);
                assert forall|k: int| 0 <= k < url.len() implies url[k] != '\n' by {
                    assert(url[k] == s[p + k]);
                }
                lemma_nl_none(url);
                lemma_nl_escaped(url);
                lemma_nl_escaped(s.subrange(last, p));
                lemma_nl_split(s, last, p, s.len() as int);
                lemma_nl_split(s, p, e, s.len() as int);
                let x1 = escaped(s.subrange(last, p));
                let x2 = escaped(url);
                let r = links_md(s, e, e);
                lemma_nl_concat(x1, seq!['[']);
                lemma_nl_concat(x1 + seq!['['], x2);
                lemma_nl_concat(x1 + seq!['['] + x2, seq![']', '(']);
                lemma_nl_concat(x1 + seq!['['] + x2 + seq![']', '('], url);
                lemma_nl_concat(x1 + seq!['['] + x2 + seq![']', '('] + url, seq![')']);
                lemma_nl_concat(x1 + seq!['['] + x2 + seq![']', '('] + url + seq![')'], r);
                lemma_nl_lit(seq!['[']);
                lemma_nl_lit(seq![']', '(']);
                lemma_nl_lit(seq![')']);
            },
        }
    }
}

/// No mention target's jid holds a newline.
pub open spec fn jids_on_one_line(tg: Seq<(Option<Seq<char>>, Seq<char>)>) -> bool {
    forall|k: int| 0 <= k < tg.len() ==> newlines(#[trigger] tg[k].1) == 0
}

proof fn lemma_nl_mentions(
    s: Seq<char>,
    p: int,
    last: int,
    tg: Seq<(Option<Seq<char>>, Seq<char>)>,
    base: int,
)
    requires
        0 <= last <= p <= s.len(),
        mention_ids_from(s, p).len() <= tg.len(),
        jids_on_one_line(tg),
    ensures
        newlines(mentions_md(s, p, last, tg)) == newlines(plain_mentions(s, p, last, tg, base).0),
    decreases s.len() - p,
{
    if p >= s.len() {
        lemma_nl_links(s.subrange(last, s.len() as int), 0, 0);
        assert(s.subrange(last, s.len() as int).subrange(0, s.subrange(last, s.len() as int).len() as int)
            =~= s.subrange(last, s.len() as int));
    } else {
        match mention_at(s, p) {
            None => {
                lemma_nl_mentions(s, p + 1, last, tg, base);
            },
            Some((e, a, b)) => {
                lemma_mention_bounds(s, p);
                let pre = s.subrange(last, p);
                let tok = s.subrange(a, b);
                let before = links_md(pre, 0, 0);
                lemma_nl_links(pre, 0, 0);
                assert(pre.subrange(0, pre.len() as int) =~= pre);
                if all_ascii_digits(tok) {
                    let label = label_of(tg[0], tok);
                    let b1 = base + pre.len();
                    lemma_nl_mentions(s, e, e, tg.drop_first(), b1 + 1 + label.len());
                    assert(jids_on_one_line(tg.drop_first())) by {
                        assert forall|k: int| 0 <= k < tg.drop_first().len() implies newlines(
                            #[trigger] tg.drop_first()[k].1,
                        ) == 0 by {
                            assert(tg.drop_first()[k] == tg[k + 1]);
                        }
                    }
                    let rm = mentions_md(s, e, e, tg.drop_first());
                    let rp = plain_mentions(s, e, e, tg.drop_first(), b1 + 1 + label.len()).0;
                    lemma_nl_escaped(label);
                    assert(newlines(tg[0].1) == 0);
                    lemma_nl_concat(before, seq!['[', '@']);
                    lemma_nl_concat(before + seq!['[', '@'], escaped(label));
                    lemma_nl_concat(before + seq!['[', '@'] + escaped(label), seq![']', '(']);
                    lemma_nl_concat(before + seq!['[', '@'] + escaped(label) + seq![']', '('], tg[0].1);
                    lemma_nl_concat(
                        before + seq!['[', '@'] + escaped(label) + seq![']', '('] + tg[0].1,
                        seq![')'],
                    );
                    lemma_nl_concat(
                        before + seq!['[', '@'] + escaped(label) + seq![']', '('] + tg[0].1 + seq![')'],
                        rm,
                    );
                    lemma_nl_concat(pre, seq!['@'] + label);
                    lemma_nl_concat(seq!['@'], label);
                    lemma_nl_concat(pre + (seq!['@'] + label), rp);
                    lemma_nl_lit(seq!['[', '@']);
                    lemma_nl_lit(seq![']', '(']);
                    lemma_nl_lit(seq![')']);
                    lemma_nl_lit(seq!['@']);
                } else {
                    let whole = s.subrange(p, e);
                    assert(whole =~= seq!['@'] + tok);
                    let b1 = base + pre.len();
                    lemma_nl_mentions(s, e, e, tg, b1 + whole.len());
                    let rm = mentions_md(s, e, e, tg);
                    let rp = plain_mentions(s, e, e, tg, b1 + whole.len()).0;
                    lemma_nl_escaped(tok);
                    lemma_nl_concat(before, seq!['*', '*', '@']);
                    lemma_nl_concat(before + seq!['*', '*', '@'], escaped(tok));
                    lemma_nl_concat(before + seq!['*', '*', '@'] + escaped(tok), seq!['*', '*']);
                    lemma_nl_concat(before + seq!['*', '*', '@'] + escaped(tok) + seq!['*', '*'], rm);
                    lemma_nl_concat(pre, whole);
                    lemma_nl_concat(seq!['@'], tok);
                    lemma_nl_concat(pre + whole, rp);
                    lemma_nl_lit(seq!['*', '*', '@']);
                    lemma_nl_lit(seq!['*', '*']);
                    lemma_nl_lit(seq!['@']);
                }
            },
        }
    }
}

proof fn lemma_next_nl_line(s: Seq<char>, from: int)
    requires
        0 <= from <= s.len(),
    ensures
        forall|k: int| from <= k < next_nl(s, from) ==> s[k] != '\n',
    decreases s.len() - from,
{
    if from < s.len() && s[from] != '\n' {
        lemma_next_nl_line(s, from + 1);
    }
}

proof fn lemma_nl_code_lines(f: Seq<char>, p: int)
    requires
        0 <= p <= f.len(),
    ensures
        newlines(code_lines(f, p)) == newlines(f.subrange(p, f.len() as int)),
    decreases f.len() + 1 - p,
{
    let q = next_nl(f, p);
    lemma_next_nl(f, p);
    lemma_next_nl_line(f, p);
    let l = f.subrange(p, q);
    assert forall|k: int| 0 <= k < l.len() implies l[k] != '\n' by {
        assert(l[k] == f[p + k]);
    }
    lemma_nl_none(l);
    let cl = code_line(l);
    assert forall|k: int| 0 <= k < cl.len() implies cl[k] != '\n' by {
        if l.len() > 0 {
            if 0 < k < cl.len() - 1 {
                assert(cl[k] == fix_ends(l)[k - 1]);
            }
        }
    }
    lemma_nl_none(cl);
    if q < f.len() {
        lemma_nl_code_lines(f, q + 1);
        lemma_nl_concat(cl, seq!['\n']);
        lemma_nl_concat(cl + seq!['\n'], code_lines(f, q + 1));
        lemma_nl_split(f, p, q, f.len() as int);
        lemma_nl_split(f, q, q + 1, f.len() as int);
        assert(f.subrange(q, q + 1) =~= seq!['\n']);
        assert(seq!['\n'].drop_last() =~= Seq::<char>::empty());
    } else {
        assert(l =~= f.subrange(p, f.len() as int));
    }
}

proof fn lemma_nl_keep_lines(s: Seq<char>, p: int)
    requires
        0 <= p <= s.len(),
    ensures
        newlines(keep_lines_from(s, p)) == newlines(s.subrange(p, s.len() as int)),
    decreases s.len() + 1 - p,
{
    let q = next_nl(s, p);
    lemma_next_nl(s, p);
    lemma_next_nl_line(s, p);
    let l = s.subrange(p, q);
    assert forall|k: int| 0 <= k < l.len() implies l[k] != '\n' by {
        assert(l[k] == s[p + k]);
    }
    lemma_nl_none(l);
    let kl = keep_line(l);
    let ind = lead_end(l, 0);
    lemma_lead_end(l, 0);
    assert forall|k: int| 0 <= k < kl.len() implies kl[k] != '\n' by {
        let rest = l.subrange(ind, l.len() as int);
        if !all_space(rest) {
            if k >= ind {
                assert(kl[k] == rest[k - ind]);
                assert(rest[k - ind] == l[ind + k - ind]);
            }
        }
    }
    lemma_nl_none(kl);
    if q < s.len() {
        lemma_nl_keep_lines(s, q + 1);
        lemma_nl_concat(kl, seq!['\n']);
        lemma_nl_concat(kl + seq!['\n'], keep_lines_from(s, q + 1));
        lemma_nl_split(s, p, q, s.len() as int);
        lemma_nl_split(s, q, q + 1, s.len() as int);
        assert(s.subrange(q, q + 1) =~= seq!['\n']);
        assert(seq!['\n'].drop_last() =~= Seq::<char>::empty());
    } else {
        assert(l =~= s.subrange(p, s.len() as int));
    }
}

proof fn lemma_nl_tokens(
    t: Seq<char>,
    toks: Seq<(TokenKind, int, int)>,
    tg: Seq<(Option<Seq<char>>, Seq<char>)>,
    base: int,
)
    requires
        tokens_ids(t, toks).len() <= tg.len(),
        jids_on_one_line(tg),
    ensures
        newlines(tokens_md(t, toks, tg)) == newlines(tokens_plain(t, toks, tg, base).0),
    decreases toks.len(),
{
    if toks.len() > 0 {
        let tok = toks[0];
        let part = t.subrange(tok.1, tok.2);
        let used = token_ids(t, tok).len();
        assert(tokens_ids(t, toks) == token_ids(t, tok) + tokens_ids(t, toks.drop_first()));
        let h = token_plain(tok.0, part, tg, base);
        let hm = token_md(tok.0, part, tg);
        if uses_mentions(tok.0) {
            lemma_nl_mentions(part, 0, 0, tg, base);
        }
        match tok.0 {
            TokenKind::Code => {
                lemma_nl_code_lines(strip_ticks(part), 0);
                assert(strip_ticks(part).subrange(0, strip_ticks(part).len() as int) =~= strip_ticks(part));
            },
            TokenKind::Strike => {
                lemma_nl_escaped(part);
                lemma_nl_concat(seq!['~', '~'], escaped(part));
                lemma_nl_concat(seq!['~', '~'] + escaped(part), seq!['~', '~']);
                lemma_nl_lit(seq!['~', '~']);
            },
            TokenKind::Bold => {
                lemma_nl_concat(seq!['*', '*'], mentions_md(part, 0, 0, tg));
                lemma_nl_concat(seq!['*', '*'] + mentions_md(part, 0, 0, tg), seq!['*', '*']);
                lemma_nl_lit(seq!['*', '*']);
            },
            TokenKind::Italic => {
                lemma_nl_concat(seq!['*'], mentions_md(part, 0, 0, tg));
                lemma_nl_concat(seq!['*'] + mentions_md(part, 0, 0, tg), seq!['*']);
                lemma_nl_lit(seq!['*']);
            },
            TokenKind::Plain => {},
        }
        assert(newlines(hm) == newlines(h.0));
        let tg2 = tg.skip(used as int);
        assert(jids_on_one_line(tg2)) by {
            assert forall|k: int| 0 <= k < tg2.len() implies newlines(#[trigger] tg2[k].1) == 0 by {
                assert(tg2[k] == tg[k + used]);
            }
        }
        lemma_nl_tokens(t, toks.drop_first(), tg2, base + h.0.len());
        lemma_nl_concat(hm, tokens_md(t, toks.drop_first(), tg2));
        lemma_nl_concat(h.0, tokens_plain(t, toks.drop_first(), tg2, base + h.0.len()).0);
    }
}

/// Every line of a message stays a line in both renderings: the markdown
/// and the plain text laid over it hold as many newlines (so the overlay
/// never sits a line off the styled text), whatever the targets' names,
/// as long as no jid holds a newline.
pub proof fn law_renderings_keep_the_same_lines(
    t: Seq<char>,
    tg: Seq<(Option<Seq<char>>, Seq<char>)>,
)
    requires
        message_mention_ids(t).len() <= tg.len(),
        jids_on_one_line(tg),
    ensures
        newlines(markdown(t, tg)) == newlines(plain(t, tg).0),
{
    let md = tokens_md(t, tokens_of(t), tg);
    lemma_nl_tokens(t, tokens_of(t), tg, 0);
    lemma_nl_keep_lines(md, 0);
    assert(md.subrange(0, md.len() as int) =~= md);
}


// ---------------------------------------------------------------------------
// Text without markup
// ---------------------------------------------------------------------------

proof fn lemma_tokens_without_markers(t: Seq<char>, p: int, last: int)
    requires
        0 <= p,
        forall|i: int| p <= i ==> #[trigger] marker_at(t, i) is None,
    ensures
        tokens_from(t, p, last) == seq![(TokenKind::Plain, last, t.len() as int)],
    decreases t.len() - p,
{
    if p < t.len() {
        assert(marker_at(t, p) is None);
        lemma_tokens_without_markers(t, p + 1, last);
    }
}

proof fn lemma_url_spans_without_links(s: Seq<char>, p: int, base: int)
    requires
        0 <= p,
        forall|i: int| p <= i ==> #[trigger] url_at(s, i) is None,
    ensures
        url_spans(s, p, base) == Seq::<(int, int, Seq<char>)>::empty(),
    decreases s.len() - p,
{
    if p < s.len() {
        assert(url_at(s, p) is None);
        lemma_url_spans_without_links(s, p + 1, base);
    }
}

proof fn lemma_links_md_without_links(s: Seq<char>, p: int, last: int)
    requires
        0 <= p,
        forall|i: int| p <= i ==> #[trigger] url_at(s, i) is None,
    ensures
        links_md(s, p, last) == escaped(s.subrange(last, s.len() as int)),
    decreases s.len() - p,
{
    if p < s.len() {
        assert(url_at(s, p) is None);
        lemma_links_md_without_links(s, p + 1, last);
    }
}

proof fn lemma_plain_mentions_without_mentions(
    s: Seq<char>,
    p: int,
    last: int,
    tg: Seq<(Option<Seq<char>>, Seq<char>)>,
    base: int,
)
    requires
        0 <= p,
        forall|i: int| p <= i ==> #[trigger] mention_at(s, i) is None,
    ensures
        plain_mentions(s, p, last, tg, base) == (s.subrange(last, s.len() as int), url_spans(
            s.subrange(last, s.len() as int),
            0,
            base,
        )),
    decreases s.len() - p,
{
    if p < s.len() {
        assert(mention_at(s, p) is None);
        lemma_plain_mentions_without_mentions(s, p + 1, last, tg, base);
    }
}

proof fn lemma_mentions_md_without_mentions(s: Seq<char>, p: int, last: int, tg: Seq<(Option<Seq<char>>, Seq<char>)>)
    requires
        0 <= p,
        forall|i: int| p <= i ==> #[trigger] mention_at(s, i) is None,
    ensures
        mentions_md(s, p, last, tg) == links_md(s.subrange(last, s.len() as int), 0, 0),
    decreases s.len() - p,
{
    if p < s.len() {
        assert(mention_at(s, p) is None);
        lemma_mentions_md_without_mentions(s, p + 1, last, tg);
    }
}

proof fn lemma_ids_without_mentions(s: Seq<char>, p: int)
    requires
        0 <= p,
        forall|i: int| p <= i ==> #[trigger] mention_at(s, i) is None,
    ensures
        mention_ids_from(s, p) == Seq::<Seq<char>>::empty(),
    decreases s.len() - p,
{
    if p < s.len() {
        assert(mention_at(s, p) is None);
        lemma_ids_without_mentions(s, p + 1);
    }
}

/// A text without markup renders as itself: the plain rendering is the text
/// with no link or mention spans, and no mention is looked up.
pub proof fn law_text_without_markup_renders_as_itself(t: Seq<char>, tg: Seq<(Option<Seq<char>>, Seq<char>)>)
    requires
        !has_markup_spec(t),
    ensures
        plain(t, tg) == (t, Seq::<(int, int, Seq<char>)>::empty()),
        message_mention_ids(t).len() == 0,
{
    assert forall|i: int| 0 <= i implies #[trigger] marker_at(t, i) is None by {}
    assert forall|i: int| 0 <= i implies #[trigger] mention_at(t, i) is None by {}
    assert forall|i: int| 0 <= i implies #[trigger] url_at(t, i) is None by {}
    lemma_tokens_without_markers(t, 0, 0);
    let toks = tokens_of(t);
    assert(t.subrange(0, t.len() as int) =~= t);
    lemma_plain_mentions_without_mentions(t, 0, 0, tg, 0);
    lemma_url_spans_without_links(t, 0, 0);
    lemma_ids_without_mentions(t, 0);
    assert(toks.drop_first() =~= Seq::<(TokenKind, int, int)>::empty());
    assert(tokens_ids(t, toks.drop_first()) == Seq::<Seq<char>>::empty());
    assert(tokens_ids(t, toks) =~= Seq::<Seq<char>>::empty());
    let h = token_plain(TokenKind::Plain, t, tg, 0);
    assert(h == (t, Seq::<(int, int, Seq<char>)>::empty()));
    assert(toks[0] == (TokenKind::Plain, 0int, t.len() as int));
    let r = tokens_plain(t, toks.drop_first(), tg.skip(token_ids(t, toks[0]).len() as int), 0 + h.0.len() as int);
    assert(r == (Seq::<char>::empty(), Seq::<(int, int, Seq<char>)>::empty()));
    assert(plain(t, tg) == (h.0 + r.0, h.1 + r.1));
    assert(t + Seq::<char>::empty() =~= t);
    assert(Seq::<(int, int, Seq<char>)>::empty() + Seq::<(int, int, Seq<char>)>::empty() =~= Seq::<(int, int, Seq<char>)>::empty());
}

proof fn lemma_escaped_chars(s: Seq<char>)
    ensures
        forall|i: int| 0 <= i < s.len() ==> escaped(s).contains(#[trigger] s[i]),
        forall|i: int| 0 <= i < escaped(s).len() ==> #[trigger] escaped(s)[i] == '\\' || s.contains(escaped(s)[i]),
        s.len() > 0 ==> escaped(s).len() > 0 && (escaped(s)[0] == '\\' || escaped(s)[0] == s[0]),
    decreases s.len(),
{
    if s.len() > 0 {
        let p = s.drop_last();
        let e = escaped(p);
        lemma_escaped_chars(p);
        let l = s.last();
        let x = escaped(s);
        assert(x == if md_special(l) { e + seq!['\\', l] } else { e.push(l) });
        assert forall|i: int| 0 <= i < s.len() implies x.contains(#[trigger] s[i]) by {
            if i < p.len() {
                assert(p[i] == s[i]);
                assert(e.contains(s[i]));
                let w = choose|w: int| 0 <= w < e.len() && e[w] == s[i];
                assert(x[w] == e[w]);
            } else {
                if md_special(l) {
                    assert(x[e.len() + 1int] == l);
                } else {
                    assert(x[e.len() as int] == l);
                }
            }
        }
        assert forall|i: int| 0 <= i < x.len() implies #[trigger] x[i] == '\\' || s.contains(x[i]) by {
            if i < e.len() {
                assert(x[i] == e[i]);
                if e[i] != '\\' {
                    assert(p.contains(e[i]));
                    let m = choose|m: int| 0 <= m < p.len() && p[m] == e[i];
                    assert(s[m] == e[i]);
                }
            } else {
                assert(s[s.len() - 1] == l);
            }
        }
        if p.len() > 0 {
            assert(x[0] == e[0]);
            assert(p[0] == s[0]);
        } else {
            assert(e.len() == 0);
        }
    }
}

proof fn lemma_next_nl_none(s: Seq<char>, from: int)
    requires
        0 <= from,
        forall|i: int| 0 <= i < s.len() ==> #[trigger] s[i] != '\n',
    ensures
        next_nl(s, from) == if from >= s.len() { s.len() as int } else { s.len() as int },
    decreases s.len() - from,
{
    if from < s.len() {
        lemma_next_nl_none(s, from + 1);
    }
}

/// A one-line text without markup that starts with no space and is not
/// blank renders to markdown as itself with a backslash before every
/// markdown-special char, and no mention is looked up.
pub proof fn law_markdown_of_plain_text_is_escaped(t: Seq<char>, tg: Seq<(Option<Seq<char>>, Seq<char>)>)
    requires
        !has_markup_spec(t),
        forall|i: int| 0 <= i < t.len() ==> #[trigger] t[i] != '\n',
        t.len() > 0 && t[0] != ' ',
        !all_space(t),
    ensures
        markdown(t, tg) == escaped(t),
        message_mention_ids(t).len() == 0,
{
    law_text_without_markup_renders_as_itself(t, tg);
    assert forall|i: int| 0 <= i implies #[trigger] marker_at(t, i) is None by {}
    assert forall|i: int| 0 <= i implies #[trigger] mention_at(t, i) is None by {}
    assert forall|i: int| 0 <= i implies #[trigger] url_at(t, i) is None by {}
    lemma_tokens_without_markers(t, 0, 0);
    let toks = tokens_of(t);
    assert(t.subrange(0, t.len() as int) =~= t);
    lemma_mentions_md_without_mentions(t, 0, 0, tg);
    lemma_links_md_without_links(t, 0, 0);
    assert(toks.drop_first() =~= Seq::<(TokenKind, int, int)>::empty());
    let e = escaped(t);
    assert(tokens_md(t, toks, tg) == e + tokens_md(t, toks.drop_first(), tg.skip(token_ids(t, toks[0]).len() as int)));
    assert(tokens_md(t, toks, tg) =~= e);
    lemma_escaped_chars(t);
    assert forall|i: int| 0 <= i < e.len() implies #[trigger] e[i] != '\n' by {
        if e[i] != '\\' {
            let m = choose|m: int| 0 <= m < t.len() && t[m] == e[i];
            assert(t[m] != '\n');
        }
    }
    lemma_next_nl_none(e, 0);
    assert(e.subrange(0, e.len() as int) =~= e);
    assert(lead_end(e, 0) == 0);
    assert(e.subrange(0, e.len() as int) =~= e);
    assert(!all_space(e)) by {
        let k = choose|k: int| 0 <= k < t.len() && !is_space(#[trigger] t[k]);
        assert(e.contains(t[k]));
        let w = choose|w: int| 0 <= w < e.len() && e[w] == t[k];
    }
    assert(Seq::new(0nat, |k: int| nbsp()) + e =~= e);
}


// ---------------------------------------------------------------------------
// The spans of the plain rendering
// ---------------------------------------------------------------------------

/// Spans laid over `w`, which starts at `base` in the whole text: each is a
/// non-empty range inside `w`, they come in order without overlapping, and
/// each covers either its link (the text under it is the target) or a
/// mention (the text under it starts with '@').
pub open spec fn spans_fit(w: Seq<char>, sp: Seq<(int, int, Seq<char>)>, base: int) -> bool {
    &&& forall|k: int| 0 <= k < sp.len() ==> base <= (#[trigger] sp[k]).0 < sp[k].1 <= base + w.len()
    &&& forall|k: int| 0 <= k < sp.len() ==> (w.subrange((#[trigger] sp[k]).0 - base, sp[k].1 - base) == sp[k].2
        || w[sp[k].0 - base] == '@')
    &&& forall|k: int, l: int| 0 <= k < l < sp.len() ==> (#[trigger] sp[k]).1 <= (#[trigger] sp[l]).0
}

proof fn lemma_spans_join(
    w1: Seq<char>,
    sp1: Seq<(int, int, Seq<char>)>,
    w2: Seq<char>,
    sp2: Seq<(int, int, Seq<char>)>,
    base: int,
)
    requires
        spans_fit(w1, sp1, base),
        spans_fit(w2, sp2, base + w1.len()),
    ensures
        spans_fit(w1 + w2, sp1 + sp2, base),
{
    let w = w1 + w2;
    let sp = sp1 + sp2;
    let b2 = base + w1.len();
    assert forall|k: int| 0 <= k < sp.len() implies base <= (#[trigger] sp[k]).0 < sp[k].1 <= base + w.len()
        && (w.subrange(sp[k].0 - base, sp[k].1 - base) == sp[k].2 || w[sp[k].0 - base] == '@') by {
        if k < sp1.len() {
            assert(sp[k] == sp1[k]);
            let x = sp1[k];
            assert(w.subrange(x.0 - base, x.1 - base) =~= w1.subrange(x.0 - base, x.1 - base));
            assert(w[x.0 - base] == w1[x.0 - base]);
        } else {
            let k2 = k - sp1.len();
            assert(sp[k] == sp2[k2]);
            let x = sp2[k2];
            assert(w.subrange(x.0 - base, x.1 - base) =~= w2.subrange(x.0 - b2, x.1 - b2));
            assert(w[x.0 - base] == w2[x.0 - b2]);
        }
    }
    assert forall|k: int, l: int| 0 <= k < l < sp.len() implies (#[trigger] sp[k]).1 <= (#[trigger] sp[l]).0 by {
        if l < sp1.len() {
            assert(sp[k] == sp1[k] && sp[l] == sp1[l]);
        } else if k >= sp1.len() {
            assert(sp[k] == sp2[k - sp1.len()] && sp[l] == sp2[l - sp1.len()]);
        } else {
            assert(sp[k] == sp1[k] && sp[l] == sp2[l - sp1.len()]);
        }
    }
}

proof fn lemma_url_spans_fit(s: Seq<char>, p: int, base: int)
    requires
        0 <= p,
    ensures
        forall|k: int| 0 <= k < url_spans(s, p, base).len() ==> {
            let x = #[trigger] url_spans(s, p, base)[k];
            &&& base + p <= x.0 < x.1 <= base + s.len()
            &&& s.subrange(x.0 - base, x.1 - base) == x.2
        },
        forall|k: int, l: int| 0 <= k < l < url_spans(s, p, base).len()
            ==> (#[trigger] url_spans(s, p, base)[k]).1 <= (#[trigger] url_spans(s, p, base)[l]).0,
    decreases s.len() - p,
{
    if p < s.len() {
        lemma_url_bounds(s, p);
        match url_at(s, p) {
            None => {
                lemma_url_spans_fit(s, p + 1, base);
                assert(url_spans(s, p, base) == url_spans(s, p + 1, base));
            },
            Some(e) => {
                lemma_url_spans_fit(s, e, base);
                assert((base + p) - base == p && (base + e) - base == e);
                let rest = url_spans(s, e, base);
                let sp = url_spans(s, p, base);
                assert(sp == seq![(base + p, base + e, s.subrange(p, e))] + rest);
                assert forall|k: int| 0 <= k < sp.len() implies {
                    let x = #[trigger] sp[k];
                    &&& base + p <= x.0 < x.1 <= base + s.len()
                    &&& s.subrange(x.0 - base, x.1 - base) == x.2
                } by {
                    if k > 0 {
                        assert(sp[k] == rest[k - 1]);
                    } else {
                        assert(sp[0] == (base + p, base + e, s.subrange(p, e)));
                    }
                }
                assert forall|k: int, l: int| 0 <= k < l < sp.len() implies (#[trigger] sp[k]).1 <= (#[trigger] sp[l]).0 by {
                    assert(sp[l] == rest[l - 1]);
                    if k > 0 {
                        assert(sp[k] == rest[k - 1]);
                    }
                }
            },
        }
    }
}

proof fn lemma_url_spans_fit_whole(s: Seq<char>, base: int)
    ensures
        spans_fit(s, url_spans(s, 0, base), base),
{
    lemma_url_spans_fit(s, 0, base);
    let sp = url_spans(s, 0, base);
    assert forall|k: int| 0 <= k < sp.len() implies (s.subrange((#[trigger] sp[k]).0 - base, sp[k].1 - base) == sp[k].2
        || s[sp[k].0 - base] == '@') by {
        let x = sp[k];
    }
}

proof fn lemma_plain_mentions_fit(
    s: Seq<char>,
    p: int,
    last: int,
    tg: Seq<(Option<Seq<char>>, Seq<char>)>,
    base: int,
)
    requires
        0 <= last <= p <= s.len(),
    ensures
        spans_fit(plain_mentions(s, p, last, tg, base).0, plain_mentions(s, p, last, tg, base).1, base),
    decreases s.len() - p,
{
    if p >= s.len() {
        lemma_url_spans_fit_whole(s.subrange(last, s.len() as int), base);
    } else {
        lemma_mention_bounds(s, p);
        match mention_at(s, p) {
            None => {
                lemma_plain_mentions_fit(s, p + 1, last, tg, base);
            },
            Some((e, a, b)) => {
                let pre = s.subrange(last, p);
                let tok = s.subrange(a, b);
                let b1 = base + pre.len();
                lemma_url_spans_fit_whole(pre, base);
                if all_ascii_digits(tok) {
                    let label = seq!['@'] + label_of(tg[0], tok);
                    let r = plain_mentions(s, e, e, tg.drop_first(), b1 + label.len());
                    lemma_plain_mentions_fit(s, e, e, tg.drop_first(), b1 + label.len());
                    let one = seq![(b1, b1 + label.len(), tg[0].1)];
                    assert(spans_fit(label, one, b1)) by {
                        assert(label[0] == '@');
                    }
                    lemma_spans_join(label, one, r.0, r.1, b1);
                    lemma_spans_join(pre, url_spans(pre, 0, base), label + r.0, one + r.1, base);
                    assert(pre + (label + r.0) =~= pre + label + r.0);
                    assert(url_spans(pre, 0, base) + (one + r.1) =~= url_spans(pre, 0, base) + one + r.1);
                } else {
                    let whole = s.subrange(p, e);
                    let r = plain_mentions(s, e, e, tg, b1 + whole.len());
                    lemma_plain_mentions_fit(s, e, e, tg, b1 + whole.len());
                    assert(spans_fit(whole, Seq::<(int, int, Seq<char>)>::empty(), b1));
                    lemma_spans_join(whole, Seq::<(int, int, Seq<char>)>::empty(), r.0, r.1, b1);
                    assert(Seq::<(int, int, Seq<char>)>::empty() + r.1 =~= r.1);
                    lemma_spans_join(pre, url_spans(pre, 0, base), whole + r.0, r.1, base);
                    assert(pre + (whole + r.0) =~= pre + whole + r.0);
                }
            },
        }
    }
}

proof fn lemma_tokens_plain_fit(
    t: Seq<char>,
    toks: Seq<(TokenKind, int, int)>,
    tg: Seq<(Option<Seq<char>>, Seq<char>)>,
    base: int,
)
    ensures
        spans_fit(tokens_plain(t, toks, tg, base).0, tokens_plain(t, toks, tg, base).1, base),
    decreases toks.len(),
{
    if toks.len() > 0 {
        let part = t.subrange(toks[0].1, toks[0].2);
        let h = token_plain(toks[0].0, part, tg, base);
        match toks[0].0 {
            TokenKind::Code => {},
            TokenKind::Strike => {},
            _ => {
                lemma_plain_mentions_fit(part, 0, 0, tg, base);
            },
        }
        let tg2 = tg.skip(token_ids(t, toks[0]).len() as int);
        lemma_tokens_plain_fit(t, toks.drop_first(), tg2, base + h.0.len());
        let r = tokens_plain(t, toks.drop_first(), tg2, base + h.0.len());
        lemma_spans_join(h.0, h.1, r.0, r.1, base);
    }
}

/// The spans of the plain rendering lie inside its text, in order and
/// without overlapping, and each covers its link (the text under a link
/// span is the link) or a mention (the text under it starts with '@');
/// as the byte offsets are those of char positions, every span starts and
/// ends on a char boundary.
pub proof fn law_plain_spans_fit_the_text(t: Seq<char>, tg: Seq<(Option<Seq<char>>, Seq<char>)>)
    ensures
        spans_fit(plain(t, tg).0, plain(t, tg).1, 0),
{
    lemma_tokens_plain_fit(t, tokens_of(t), tg, 0);
}


// ---------------------------------------------------------------------------
// The mention being typed, as a law
// ---------------------------------------------------------------------------

proof fn lemma_chars_within(t: Seq<char>, k: int, cursor: int)
    requires
        0 <= k <= t.len(),
        byte_len(t.take(k)) <= cursor,
    ensures
        k <= chars_within(t, k, cursor) <= t.len(),
        byte_len(t.take(chars_within(t, k, cursor))) <= cursor,
        chars_within(t, k, cursor) < t.len() ==> byte_len(t.take(chars_within(t, k, cursor) + 1)) > cursor,
    decreases t.len() - k,
{
    if k < t.len() && byte_len(t.take(k + 1)) <= cursor {
        lemma_chars_within(t, k + 1, cursor);
    }
}

/// `at` is the last '@' before char position `c`.
pub open spec fn last_at_before(t: Seq<char>, at: int, c: int) -> bool {
    &&& 0 <= at < c
    &&& t[at] == '@'
    &&& forall|m: int| at < m < c ==> #[trigger] t[m] != '@'
}

proof fn lemma_last_at_before(t: Seq<char>, k: int)
    requires
        0 <= k <= t.len(),
    ensures
        last_at_sign(t, k) >= 0 ==> last_at_before(t, last_at_sign(t, k), k),
        last_at_sign(t, k) < 0 ==> forall|m: int| 0 <= m < k ==> #[trigger] t[m] != '@',
        forall|at: int| #[trigger] last_at_before(t, at, k) ==> at == last_at_sign(t, k),
    decreases k,
{
    lemma_last_at_sign(t, k);
    if k > 0 {
        lemma_last_at_before(t, k - 1);
        assert forall|at: int| #[trigger] last_at_before(t, at, k) implies at == last_at_sign(t, k) by {
            if t[k - 1] != '@' {
                assert(at != k - 1);
                assert(last_at_before(t, at, k - 1));
            } else if at < k - 1 {
                assert(t[k - 1] != '@');
            }
        }
    }
}

/// The "@query" under the cursor: the cursor is taken back to the last
/// char boundary at or before it (and into the text); there is a query
/// exactly when the last '@' before that point starts the text or follows
/// whitespace and no whitespace lies between it and the cursor; the
/// answer is then the byte offsets of that '@' and of the cursor.
pub proof fn law_mention_query_finds_the_word(t: Seq<char>, cursor: int)
    requires
        0 <= cursor,
    ensures
        ({
            let c = chars_within(t, 0, cursor);
            &&& 0 <= c <= t.len()
            &&& byte_len(t.take(c)) <= cursor
            &&& c < t.len() ==> byte_len(t.take(c + 1)) > cursor
            &&& match mention_query_at(t, cursor) {
                Some((a, b)) => exists|at: int| #[trigger] last_at_before(t, at, c)
                    && (forall|m: int| at < m < c ==> !is_space(#[trigger] t[m]))
                    && (at == 0 || is_space(t[at - 1]))
                    && a == byte_len(t.take(at)) && b == byte_len(t.take(c)),
                None => forall|at: int| #[trigger] last_at_before(t, at, c) ==> (
                    (exists|m: int| at < m < c && is_space(#[trigger] t[m]))
                    || (at > 0 && !is_space(t[at - 1]))),
            }
        }),
{
    assert(t.take(0) =~= Seq::<char>::empty());
    lemma_chars_within(t, 0, cursor);
    let c = chars_within(t, 0, cursor);
    lemma_last_at_before(t, c);
    let at = last_at_sign(t, c);
    if at >= 0 {
        let q = t.subrange(at + 1, c);
        assert(no_space(q) <==> forall|m: int| at < m < c ==> !is_space(#[trigger] t[m])) by {
            if no_space(q) {
                assert forall|m: int| at < m < c implies !is_space(#[trigger] t[m]) by {
                    assert(q[m - at - 1] == t[m]);
                }
            }
            if forall|m: int| at < m < c ==> !is_space(#[trigger] t[m]) {
                assert forall|k: int| 0 <= k < q.len() implies !is_space(#[trigger] q[k]) by {
                    assert(q[k] == t[at + 1 + k]);
                }
            }
        }
        if mention_query_at(t, cursor) is None {
            assert forall|x: int| #[trigger] last_at_before(t, x, c) implies (
                (exists|m: int| x < m < c && is_space(#[trigger] t[m]))
                || (x > 0 && !is_space(t[x - 1]))) by {
                assert(x == at);
            }
        } else {
            assert(last_at_before(t, at, c));
        }
    } else {
        assert forall|x: int| #[trigger] last_at_before(t, x, c) implies false by {
            assert(t[x] == '@');
        }
    }
}


// ---------------------------------------------------------------------------
// Where the spans of the plain rendering lead
// ---------------------------------------------------------------------------

/// Each span over `w` (which starts at `base`) is a link whose text is its
/// target, or a mention of one of `ids`: it reads '@' and the name (else the
/// id) of that id's target, and leads to the target's jid.
pub open spec fn spans_lead(
    w: Seq<char>,
    sp: Seq<(int, int, Seq<char>)>,
    base: int,
    ids: Seq<Seq<char>>,
    tg: Seq<(Option<Seq<char>>, Seq<char>)>,
) -> bool {
    forall|k: int| 0 <= k < sp.len() ==> {
        let x = #[trigger] sp[k];
        ||| w.subrange(x.0 - base, x.1 - base) == x.2
        ||| exists|j: int| 0 <= j < ids.len() && w.subrange(x.0 - base, x.1 - base) == seq!['@'] + label_of(
            #[trigger] tg[j],
            ids[j],
        ) && x.2 == tg[j].1
    }
}

/// The (id, target) pairs of the first lists are those of the second's
/// from `off` on.
pub open spec fn pairs_within(
    ids1: Seq<Seq<char>>,
    tg1: Seq<(Option<Seq<char>>, Seq<char>)>,
    ids: Seq<Seq<char>>,
    tg: Seq<(Option<Seq<char>>, Seq<char>)>,
    off: int,
) -> bool {
    &&& 0 <= off
    &&& off + ids1.len() <= ids.len()
    &&& forall|j: int| 0 <= j < ids1.len() ==> ids[off + j] == ids1[j] && tg[off + j] == #[trigger] tg1[j]
}

proof fn lemma_spans_lead_widen(
    w: Seq<char>,
    sp: Seq<(int, int, Seq<char>)>,
    base: int,
    ids1: Seq<Seq<char>>,
    tg1: Seq<(Option<Seq<char>>, Seq<char>)>,
    ids: Seq<Seq<char>>,
    tg: Seq<(Option<Seq<char>>, Seq<char>)>,
    off: int,
)
    requires
        spans_lead(w, sp, base, ids1, tg1),
        pairs_within(ids1, tg1, ids, tg, off),
    ensures
        spans_lead(w, sp, base, ids, tg),
{
    assert forall|k: int| 0 <= k < sp.len() implies {
        let x = #[trigger] sp[k];
        ||| w.subrange(x.0 - base, x.1 - base) == x.2
        ||| exists|j: int| 0 <= j < ids.len() && w.subrange(x.0 - base, x.1 - base) == seq!['@'] + label_of(
            #[trigger] tg[j],
            ids[j],
        ) && x.2 == tg[j].1
    } by {
        let x = sp[k];
        if w.subrange(x.0 - base, x.1 - base) != x.2 {
            let j = choose|j: int| 0 <= j < ids1.len() && w.subrange(x.0 - base, x.1 - base) == seq!['@'] + label_of(
                #[trigger] tg1[j],
                ids1[j],
            ) && x.2 == tg1[j].1;
            let m = off + j;
            assert(tg[m] == tg1[j] && ids[m] == ids1[j]);
            assert(w.subrange(x.0 - base, x.1 - base) == seq!['@'] + label_of(tg[m], ids[m]) && x.2 == tg[m].1);
        }
    }
}

proof fn lemma_spans_lead_join(
    w1: Seq<char>,
    sp1: Seq<(int, int, Seq<char>)>,
    w2: Seq<char>,
    sp2: Seq<(int, int, Seq<char>)>,
    base: int,
    ids: Seq<Seq<char>>,
    tg: Seq<(Option<Seq<char>>, Seq<char>)>,
)
    requires
        spans_fit(w1, sp1, base),
        spans_fit(w2, sp2, base + w1.len()),
        spans_lead(w1, sp1, base, ids, tg),
        spans_lead(w2, sp2, base + w1.len(), ids, tg),
    ensures
        spans_lead(w1 + w2, sp1 + sp2, base, ids, tg),
{
    let w = w1 + w2;
    let sp = sp1 + sp2;
    let b2 = base + w1.len();
    assert forall|k: int| 0 <= k < sp.len() implies {
        let x = #[trigger] sp[k];
        ||| w.subrange(x.0 - base, x.1 - base) == x.2
        ||| exists|j: int| 0 <= j < ids.len() && w.subrange(x.0 - base, x.1 - base) == seq!['@'] + label_of(
            #[trigger] tg[j],
            ids[j],
        ) && x.2 == tg[j].1
    } by {
        if k < sp1.len() {
            assert(sp[k] == sp1[k]);
            let x = sp1[k];
            assert(w.subrange(x.0 - base, x.1 - base) =~= w1.subrange(x.0 - base, x.1 - base));
        } else {
            let k2 = k - sp1.len();
            assert(sp[k] == sp2[k2]);
            let x = sp2[k2];
            assert(w.subrange(x.0 - base, x.1 - base) =~= w2.subrange(x.0 - b2, x.1 - b2));
        }
    }
}

proof fn lemma_url_spans_lead(s: Seq<char>, base: int, ids: Seq<Seq<char>>, tg: Seq<(Option<Seq<char>>, Seq<char>)>)
    ensures
        spans_lead(s, url_spans(s, 0, base), base, ids, tg),
{
    lemma_url_spans_fit(s, 0, base);
}

proof fn lemma_plain_mentions_lead(
    s: Seq<char>,
    p: int,
    last: int,
    tg: Seq<(Option<Seq<char>>, Seq<char>)>,
    base: int,
)
    requires
        0 <= last <= p <= s.len(),
        tg.len() >= mention_ids_from(s, p).len(),
    ensures
        spans_lead(
            plain_mentions(s, p, last, tg, base).0,
            plain_mentions(s, p, last, tg, base).1,
            base,
            mention_ids_from(s, p),
            tg,
        ),
    decreases s.len() - p,
{
    let ids = mention_ids_from(s, p);
    if p >= s.len() {
        lemma_url_spans_lead(s.subrange(last, s.len() as int), base, ids, tg);
    } else {
        lemma_mention_bounds(s, p);
        match mention_at(s, p) {
            None => {
                assert(ids == mention_ids_from(s, p + 1));
                lemma_plain_mentions_lead(s, p + 1, last, tg, base);
            },
            Some((e, a, b)) => {
                let pre = s.subrange(last, p);
                let tok = s.subrange(a, b);
                let b1 = base + pre.len();
                lemma_url_spans_fit_whole(pre, base);
                lemma_url_spans_lead(pre, base, ids, tg);
                if all_ascii_digits(tok) {
                    let rest_ids = mention_ids_from(s, e);
                    assert(ids == seq![tok] + rest_ids);
                    let tg2 = tg.drop_first();
                    let label = seq!['@'] + label_of(tg[0], tok);
                    let r = plain_mentions(s, e, e, tg2, b1 + label.len());
                    lemma_plain_mentions_fit(s, e, e, tg2, b1 + label.len());
                    lemma_plain_mentions_lead(s, e, e, tg2, b1 + label.len());
                    assert(pairs_within(rest_ids, tg2, ids, tg, 1)) by {
                        assert forall|j: int| 0 <= j < rest_ids.len() implies ids[1 + j] == rest_ids[j]
                            && tg[1 + j] == #[trigger] tg2[j] by {
                            assert(ids[j + 1] == rest_ids[j] && tg[j + 1] == tg2[j]);
                        }
                    }
                    lemma_spans_lead_widen(r.0, r.1, b1 + label.len(), rest_ids, tg2, ids, tg, 1);
                    let one = seq![(b1, b1 + label.len(), tg[0].1)];
                    assert(spans_fit(label, one, b1)) by {
                        assert(label[0] == '@');
                    }
                    assert(spans_lead(label, one, b1, ids, tg)) by {
                        assert(one[0] == (b1, b1 + label.len(), tg[0].1));
                        assert(label.subrange(0, label.len() as int) =~= label);
                        assert(ids[0] == tok);
                    }
                    lemma_spans_join(label, one, r.0, r.1, b1);
                    lemma_spans_lead_join(label, one, r.0, r.1, b1, ids, tg);
                    lemma_spans_join(pre, url_spans(pre, 0, base), label + r.0, one + r.1, base);
                    lemma_spans_lead_join(pre, url_spans(pre, 0, base), label + r.0, one + r.1, base, ids, tg);
                    assert(pre + (label + r.0) =~= pre + label + r.0);
                    assert(url_spans(pre, 0, base) + (one + r.1) =~= url_spans(pre, 0, base) + one + r.1);
                } else {
                    assert(ids == mention_ids_from(s, e));
                    let whole = s.subrange(p, e);
                    let r = plain_mentions(s, e, e, tg, b1 + whole.len());
                    lemma_plain_mentions_fit(s, e, e, tg, b1 + whole.len());
                    lemma_plain_mentions_lead(s, e, e, tg, b1 + whole.len());
                    let none = Seq::<(int, int, Seq<char>)>::empty();
                    assert(spans_fit(whole, none, b1));
                    lemma_spans_join(whole, none, r.0, r.1, b1);
                    lemma_spans_lead_join(whole, none, r.0, r.1, b1, ids, tg);
                    assert(none + r.1 =~= r.1);
                    lemma_spans_join(pre, url_spans(pre, 0, base), whole + r.0, r.1, base);
                    lemma_spans_lead_join(pre, url_spans(pre, 0, base), whole + r.0, r.1, base, ids, tg);
                    assert(pre + (whole + r.0) =~= pre + whole + r.0);
                }
            },
        }
    }
}

proof fn lemma_tokens_plain_lead(
    t: Seq<char>,
    toks: Seq<(TokenKind, int, int)>,
    tg: Seq<(Option<Seq<char>>, Seq<char>)>,
    base: int,
)
    requires
        tg.len() >= tokens_ids(t, toks).len(),
    ensures
        spans_lead(tokens_plain(t, toks, tg, base).0, tokens_plain(t, toks, tg, base).1, base, tokens_ids(t, toks), tg),
    decreases toks.len(),
{
    if toks.len() > 0 {
        let ids = tokens_ids(t, toks);
        let ids0 = token_ids(t, toks[0]);
        let rest_ids = tokens_ids(t, toks.drop_first());
        assert(ids == ids0 + rest_ids);
        let part = t.subrange(toks[0].1, toks[0].2);
        let h = token_plain(toks[0].0, part, tg, base);
        match toks[0].0 {
            TokenKind::Code => {},
            TokenKind::Strike => {},
            _ => {
                assert(ids0 == mention_ids_from(part, 0));
                lemma_plain_mentions_fit(part, 0, 0, tg, base);
                lemma_plain_mentions_lead(part, 0, 0, tg, base);
                assert(pairs_within(ids0, tg, ids, tg, 0)) by {
                    assert forall|j: int| 0 <= j < ids0.len() implies ids[0 + j] == ids0[j]
                        && tg[0 + j] == #[trigger] tg[j] by {
                        assert(ids[j] == ids0[j]);
                    }
                }
                lemma_spans_lead_widen(h.0, h.1, base, ids0, tg, ids, tg, 0);
            },
        }
        assert(spans_fit(h.0, h.1, base)) by {
            match toks[0].0 {
                TokenKind::Code => {},
                TokenKind::Strike => {},
                _ => {
                    lemma_plain_mentions_fit(part, 0, 0, tg, base);
                },
            }
        }
        let n0 = ids0.len() as int;
        let tg2 = tg.skip(n0);
        lemma_tokens_plain_fit(t, toks.drop_first(), tg2, base + h.0.len());
        lemma_tokens_plain_lead(t, toks.drop_first(), tg2, base + h.0.len());
        let r = tokens_plain(t, toks.drop_first(), tg2, base + h.0.len());
        assert(pairs_within(rest_ids, tg2, ids, tg, n0)) by {
            assert forall|j: int| 0 <= j < rest_ids.len() implies ids[n0 + j] == rest_ids[j]
                && tg[n0 + j] == #[trigger] tg2[j] by {
                assert(ids[n0 + j] == rest_ids[j] && tg[n0 + j] == tg2[j]);
            }
        }
        lemma_spans_lead_widen(r.0, r.1, base + h.0.len(), rest_ids, tg2, ids, tg, n0);
        lemma_spans_lead_join(h.0, h.1, r.0, r.1, base, ids, tg);
    }
}

/// Each span of the plain rendering leads where it says: a link span's text
/// is its link, and a mention span reads '@' and the name its target gives
/// (else the id) of one of the message's mentioned ids, and leads to that
/// target's jid (`tg` holding one target per mentioned id, in order).
pub proof fn law_plain_spans_lead_where_they_say(t: Seq<char>, tg: Seq<(Option<Seq<char>>, Seq<char>)>)
    requires
        tg.len() == message_mention_ids(t).len(),
    ensures
        spans_lead(plain(t, tg).0, plain(t, tg).1, 0, message_mention_ids(t), tg),
{
    lemma_tokens_plain_lead(t, tokens_of(t), tg, 0);
}

} // verus!
