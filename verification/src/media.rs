//! Naming in the media cache: sanitized ids, the app's own per-kind file
//! extensions, the plain extension a decrypted copy gets, the renames of
//! files kept under the old cache layout, and the server's rate-limit
//! answer.
use vstd::prelude::*;
use crate::text::{
    chars_of, string_of, starts_with, str_starts_with, str_eq, contains, str_contains, trimmed,
    trim_of, find_char, find_char_of, lemma_find_char, push_all, push_range, starts_with_of,
};
use crate::vault::{hex_encode, hex_of};

verus! {

broadcast use vstd::string::group_string_axioms;

/// A decoded picture: width, height and RGBA8 pixels.
pub struct Decoded {
    pub w: u32,
    pub h: u32,
    pub rgba: Vec<u8>,
}

pub open spec fn keeps_in_name(c: char) -> bool {
    ('0' <= c <= '9') || ('a' <= c <= 'z') || ('A' <= c <= 'Z') || c == '_' || c == '-'
}

/// `id` with every char but ASCII letters, digits, `_` and `-` replaced
/// by `_`.
pub open spec fn sanitized(id: Seq<char>) -> Seq<char> {
    Seq::new(id.len(), |k: int| if keeps_in_name(id[k]) { id[k] } else { '_' })
}

/// A message id made safe as a file name.
pub fn sanitize(id: &str) -> (r: String)
    ensures
        r@ == sanitized(id@),
{
    let v = chars_of(id);
    let mut out: Vec<char> = Vec::new();
    let mut i: usize = 0;
    while i < v.len()
        invariant
            i <= v@.len(),
            out@ == sanitized(v@).take(i as int),
        decreases v.len() - i,
    {
        let c = v[i];
        let keep = ('0' <= c && c <= '9') || ('a' <= c && c <= 'z') || ('A' <= c && c <= 'Z') || c
            == '_' || c == '-';
        out.push(if keep {
            c
        } else {
            '_'
        });
        assert(sanitized(v@).take(i + 1) =~= sanitized(v@).take(i as int).push(sanitized(v@)[i as int]));
        i = i + 1;
    }
    assert(sanitized(v@).take(v@.len() as int) =~= sanitized(v@));
    string_of(&out)
}

/// The media type of a mimetype: what comes before any `;` parameters,
/// trimmed.
pub open spec fn mime_type_of(mimetype: Seq<char>) -> Seq<char> {
    trimmed(mimetype.take(find_char(mimetype, ';', 0)))
}

/// The cache extension for a mimetype: "photo" for images, "video",
/// "audio", and "doc" for anything else.
pub open spec fn kind_of(mimetype: Seq<char>) -> Seq<char> {
    let mime = mime_type_of(mimetype);
    if starts_with(mime, "image/"@) {
        "photo"@
    } else if starts_with(mime, "video/"@) {
        "video"@
    } else if starts_with(mime, "audio/"@) {
        "audio"@
    } else {
        "doc"@
    }
}

/// The app's own cache extension for media of a mimetype.
pub fn kind_ext(mimetype: &str) -> (r: &'static str)
    ensures
        r@ == kind_of(mimetype@),
{
    let v = chars_of(mimetype);
    let k = find_char_of(&v, ';', 0);
    proof {
        lemma_find_char(v@, ';', 0);
    }
    let mut head: Vec<char> = Vec::new();
    push_range(&mut head, &v, 0, k);
    assert(v@.subrange(0, k as int) =~= v@.take(k as int));
    let mime = trim_of(&head);
    if starts_with_of(&mime, &chars_of("image/")) {
        "photo"
    } else if starts_with_of(&mime, &chars_of("video/")) {
        "video"
    } else if starts_with_of(&mime, &chars_of("audio/")) {
        "audio"
    } else {
        "doc"
    }
}

/// The plain extension for a cache kind.
pub open spec fn plain_ext_of(kind: Seq<char>) -> Seq<char> {
    if kind == "photo"@ || kind == "link"@ || kind == "avatar"@ {
        "jpg"@
    } else if kind == "sticker"@ {
        "webp"@
    } else if kind == "video"@ {
        "mp4"@
    } else if kind == "audio"@ {
        "ogg"@
    } else {
        "bin"@
    }
}

/// The plain extension a decrypted copy of a cached file gets, so whatever
/// opens it knows what it is.
pub fn plain_ext(kind: &str) -> (r: &'static str)
    ensures
        r@ == plain_ext_of(kind@),
{
    if str_eq(kind, "photo") || str_eq(kind, "link") || str_eq(kind, "avatar") {
        "jpg"
    } else if str_eq(kind, "sticker") {
        "webp"
    } else if str_eq(kind, "video") {
        "mp4"
    } else if str_eq(kind, "audio") {
        "ogg"
    } else {
        "bin"
    }
}

/// "stem.ext".
pub open spec fn file_name(stem: Seq<char>, ext: Seq<char>) -> Seq<char> {
    stem + seq!['.'] + ext
}

fn file_name_of(stem: &str, ext: &str) -> (r: String)
    ensures
        r@ == file_name(stem@, ext@),
{
    let mut out = chars_of(stem);
    out.push('.');
    push_all(&mut out, &chars_of(ext));
    string_of(&out)
}

/// The cache file name of a message's media: its sanitized id with the
/// extension of its kind.
pub fn cache_file_name(id: &str, mimetype: &str) -> (r: String)
    ensures
        r@ == file_name(sanitized(id@), kind_of(mimetype@)),
{
    let stem = sanitize(id);
    file_name_of(stem.as_str(), kind_ext(mimetype))
}

/// A cache name stays in the cache directory and names one thing: it holds
/// no path separator, and a message's media never takes the name of a link
/// picture, whatever the two ids.
pub proof fn law_cache_names_stay_apart(id: Seq<char>, mimetype: Seq<char>, other: Seq<char>)
    ensures
        forall|i: int| 0 <= i < file_name(sanitized(id), kind_of(mimetype)).len()
            ==> (#[trigger] file_name(sanitized(id), kind_of(mimetype))[i]) != '/'
                && file_name(sanitized(id), kind_of(mimetype))[i] != '\\',
        file_name(sanitized(id), kind_of(mimetype)) != file_name(sanitized(other), "link"@),
{
    reveal_strlit("photo");
    reveal_strlit("video");
    reveal_strlit("audio");
    reveal_strlit("doc");
    reveal_strlit("link");
    let a = sanitized(id);
    let b = sanitized(other);
    let k = kind_of(mimetype);
    let x = file_name(a, k);
    let y = file_name(b, "link"@);
    assert(k == "photo"@ || k == "video"@ || k == "audio"@ || k == "doc"@);
    assert forall|i: int| 0 <= i < x.len() implies (#[trigger] x[i]) != '/' && x[i] != '\\' by {
        if i < a.len() {
            assert(x[i] == a[i]);
        } else if i > a.len() {
            assert(x[i] == k[i - a.len() - 1]);
        }
    }
    if x == y {
        if a.len() < b.len() {
            assert(x[a.len() as int] == '.');
            assert(y[a.len() as int] == b[a.len() as int]);
        } else if b.len() < a.len() {
            assert(y[b.len() as int] == '.');
            assert(x[b.len() as int] == a[b.len() as int]);
        } else {
            assert(k.len() == 4);
            assert(k =~= x.skip(a.len() + 1int));
            assert("link"@ =~= y.skip(b.len() + 1int));
        }
    }
}

/// The cache file name of a link preview's picture.
pub fn link_thumb_file_name(id: &str) -> (r: String)
    ensures
        r@ == file_name(sanitized(id@), "link"@),
{
    let stem = sanitize(id);
    file_name_of(stem.as_str(), "link")
}

/// The cache file name of a contact's avatar.
pub fn avatar_file_name(jid: &str) -> (r: String)
    ensures
        r@ == file_name(sanitized(jid@), "avatar"@),
{
    let stem = sanitize(jid);
    file_name_of(stem.as_str(), "avatar")
}

/// A sticker's cache key: the SHA-256 its message carries, in lowercase hex;
/// nothing when the message carries no hash or an empty one. Stickers are
/// cached by this key, so one sent many times is stored once.
pub fn sticker_key(sha: Option<&[u8]>) -> (r: Option<String>)
    ensures
        r is Some <==> (sha is Some && sha.unwrap()@.len() > 0),
        r is Some ==> r.unwrap()@ == hex_of(sha.unwrap()@),
{
    match sha {
        Some(s) => {
            if s.len() == 0 {
                None
            } else {
                Some(hex_encode(s))
            }
        },
        None => None,
    }
}

/// The cache file name of a sticker, by its key.
pub fn sticker_file_name(key: &str) -> (r: String)
    ensures
        r@ == file_name(key@, "sticker"@),
{
    file_name_of(key, "sticker")
}

/// The file name a decrypted copy of the cached file `stem.kind` gets.
pub fn temp_file_name(stem: &str, kind: &str) -> (r: String)
    ensures
        r@ == file_name(stem@, plain_ext_of(kind@)),
{
    file_name_of(stem, plain_ext(kind))
}

/// Where a file kept under the old cache layout (named by its real extension,
/// with a prefix for link pictures and stickers) moves: its new stem and
/// kind, or nothing for a file that is not media.
pub open spec fn migration_of(stem: Seq<char>, ext: Seq<char>) -> Option<(Seq<char>, Seq<char>)> {
    if ext == "jpg"@ && starts_with(stem, "lnk_"@) {
        Some((stem.skip(4), "link"@))
    } else if ext == "webp"@ && starts_with(stem, "stk_"@) {
        Some((stem.skip(4), "sticker"@))
    } else if ext == "jpg"@ || ext == "png"@ || ext == "gif"@ || ext == "webp"@ {
        Some((stem, "photo"@))
    } else if ext == "mp4"@ || ext == "3gp"@ {
        Some((stem, "video"@))
    } else if ext == "ogg"@ || ext == "mp3"@ || ext == "m4a"@ || ext == "wav"@ {
        Some((stem, "audio"@))
    } else if ext == "pdf"@ || ext == "bin"@ {
        Some((stem, "doc"@))
    } else {
        None
    }
}

/// The current cache name of a file kept under the old cache layout, if it is
/// media.
pub fn migrated_name(stem: &str, ext: &str) -> (r: Option<String>)
    ensures
        match migration_of(stem@, ext@) {
            Some((s, k)) => r matches Some(n) && n@ == file_name(s, k),
            None => r is None,
        },
{
    let v = chars_of(stem);
    let prefixed = str_starts_with(stem, "lnk_") || str_starts_with(stem, "stk_");
    let tail = if v.len() >= 4 {
        let mut t: Vec<char> = Vec::new();
        push_range(&mut t, &v, 4, v.len());
        t
    } else {
        Vec::new()
    };
    proof {
        if v@.len() >= 4 {
            assert(tail@ =~= stem@.skip(4));
        }
        assert(starts_with(stem@, "lnk_"@) ==> "lnk_"@.len() <= stem@.len());
    }
    let ts = string_of(&tail);
    if str_eq(ext, "jpg") && str_starts_with(stem, "lnk_") {
        proof {
            reveal_strlit("lnk_");
        }
        Some(file_name_of(ts.as_str(), "link"))
    } else if str_eq(ext, "webp") && str_starts_with(stem, "stk_") {
        proof {
            reveal_strlit("stk_");
        }
        Some(file_name_of(ts.as_str(), "sticker"))
    } else if str_eq(ext, "jpg") || str_eq(ext, "png") || str_eq(ext, "gif") || str_eq(ext, "webp") {
        Some(file_name_of(stem, "photo"))
    } else if str_eq(ext, "mp4") || str_eq(ext, "3gp") {
        Some(file_name_of(stem, "video"))
    } else if str_eq(ext, "ogg") || str_eq(ext, "mp3") || str_eq(ext, "m4a") || str_eq(ext, "wav") {
        Some(file_name_of(stem, "audio"))
    } else if str_eq(ext, "pdf") || str_eq(ext, "bin") {
        Some(file_name_of(stem, "doc"))
    } else {
        None
    }
}

/// An error text that says the server is throttling media downloads.
pub open spec fn rate_limit_error(err: Seq<char>) -> bool {
    contains(err, "rate-overlimit"@) || contains(err, "429"@)
}

/// True when a download error is the server's rate limit (a 429
/// "rate-overlimit").
pub fn rate_limited(err: &str) -> (r: bool)
    ensures
        r == rate_limit_error(err@),
{
    str_contains(err, "rate-overlimit") || str_contains(err, "429")
}

/// How long downloads hold back after a rate limit, in milliseconds.
pub const BACKOFF_MS: u64 = 30_000;

/// The instant before which downloads wait, after a rate limit noticed at
/// `now_ms`.
pub fn backoff_until(now_ms: u64) -> (r: u64)
    requires
        now_ms <= u64::MAX - BACKOFF_MS,
    ensures
        r == now_ms + BACKOFF_MS,
{
    now_ms + BACKOFF_MS
}

/// How long a download still waits at `now_ms` when downloads are held
/// back until `until_ms`.
pub fn backoff_wait(until_ms: u64, now_ms: u64) -> (r: u64)
    ensures
        r == if until_ms > now_ms { until_ms - now_ms } else { 0 },
{
    if until_ms > now_ms {
        until_ms - now_ms
    } else {
        0
    }
}

} // verus!
