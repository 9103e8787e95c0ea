//! What an incoming WhatsApp message becomes in the store: its content
//! read as plain values, and the stored message made of it (the chat and
//! sender resolved through the aliases, a link card kept only when it says
//! something, the strip a reply shows of what it answers).
use vstd::prelude::*;
use crate::text::{chars_of, string_of, starts_with, starts_with_of, find_char, find_char_of, contains, contains_of, seq_eq, push_range};
use crate::table::Table;
use crate::i18n::{Locale, t, ta, translated};
use crate::store::{
    Store, StoreView, StoredMessage, MessageView, MessageKind, LiveMeta, canon_of, displayable, lid_pn_pair,
    merge_fits, merged_store, sender_name_of, without_selectors, clean_text, text_views, raw_view, duration_text,
    format_duration, display_id, display_id_of,
};

verus! {

broadcast use vstd::string::group_string_axioms;

/// What a message carries, as far as the store reads it (a WhatsApp
/// message carries one kind of content).
pub enum Content {
    Conversation { text: String },
    ExtendedText {
        text: Option<String>,
        /// The link the text holds, as WhatsApp matched it.
        matched_text: Option<String>,
        title: Option<String>,
        description: Option<String>,
        /// The link preview came with a picture.
        has_thumb: bool,
    },
    Sticker { width: Option<u32>, height: Option<u32>, mimetype: Option<String> },
    Video {
        caption: Option<String>,
        width: Option<u32>,
        height: Option<u32>,
        mimetype: Option<String>,
        seconds: Option<u32>,
        gif_playback: Option<bool>,
    },
    Image { caption: Option<String>, width: Option<u32>, height: Option<u32>, mimetype: Option<String> },
    Document { file_name: Option<String>, mimetype: Option<String> },
    Audio { seconds: Option<u32>, mimetype: Option<String> },
    /// Anything the store does not keep.
    Other,
}

/// What a message's content says about it besides itself.
pub struct Context {
    pub forwarded: bool,
    /// The message mentions a whole group ("@all", "@everyone").
    pub group_mentions: bool,
    /// Each mentioned jid as the message gives it, and in normal form.
    pub mentioned: Vec<(String, String)>,
    /// The message this one replies to.
    pub quote: Option<Quote>,
}

/// The message a reply answers, as the reply carries it.
pub struct Quote {
    pub stanza_id: Option<String>,
    /// Its author, in normal form.
    pub participant: Option<String>,
    pub content: Content,
}

/// An optional text, or nothing.
pub open spec fn or_empty(o: Option<String>) -> Seq<char> {
    match o {
        Some(s) => s@,
        None => seq![],
    }
}

/// An optional text, or a default.
pub open spec fn or_text(o: Option<String>, d: Seq<char>) -> Seq<char> {
    match o {
        Some(s) => s@,
        None => d,
    }
}

/// An optional number, or a default.
pub open spec fn or_num(o: Option<u32>, d: u32) -> u32 {
    match o {
        Some(n) => n,
        None => d,
    }
}

/// At most the first `n` characters.
pub open spec fn at_most(s: Seq<char>, n: nat) -> Seq<char> {
    if s.len() <= n {
        s
    } else {
        s.take(n as int)
    }
}

/// A media label, with the caption after it when there is one.
pub open spec fn captioned(locale: Locale, key: Seq<char>, caption: Option<String>) -> Seq<char> {
    let label = translated(locale, key, seq![]);
    match caption {
        Some(c) => if c@.len() != 0 {
            label + seq![' '] + without_selectors(c@)
        } else {
            label
        },
        None => label,
    }
}

/// The one line a reply shows of the message it answers.
pub open spec fn quoted_summary_of(c: Content, locale: Locale) -> Seq<char> {
    match c {
        Content::Conversation { text } => at_most(without_selectors(text@), 120),
        Content::ExtendedText { text, .. } => match text {
            Some(s) => at_most(without_selectors(s@), 120),
            None => seq![],
        },
        Content::Image { caption, .. } => captioned(locale, "preview.photo"@, caption),
        Content::Sticker { .. } => translated(locale, "preview.sticker"@, seq![]),
        Content::Audio { .. } => translated(locale, "preview.audio"@, seq![]),
        Content::Video { caption, .. } => captioned(locale, "preview.video"@, caption),
        Content::Document { file_name, .. } => translated(
            locale,
            "preview.document"@,
            seq![without_selectors(or_empty(file_name))],
        ),
        Content::Other => seq![],
    }
}

fn text_or(o: &Option<String>, d: &str) -> (r: String)
    ensures
        r@ == or_text(*o, d@),
{
    match o {
        Some(s) => s.clone(),
        None => d.to_string(),
    }
}

fn text_or_empty(o: &Option<String>) -> (r: String)
    ensures
        r@ == or_empty(*o),
{
    match o {
        Some(s) => s.clone(),
        None => String::new(),
    }
}

fn first_chars(s: &str, n: usize) -> (r: String)
    ensures
        r@ == at_most(s@, n as nat),
{
    let v = chars_of(s);
    let m = if v.len() <= n {
        v.len()
    } else {
        n
    };
    let mut out: Vec<char> = Vec::new();
    push_range(&mut out, &v, 0, m);
    assert(out@ =~= at_most(s@, n as nat));
    string_of(&out)
}

fn captioned_exec(locale: Locale, key: &str, caption: &Option<String>) -> (r: String)
    ensures
        r@ == captioned(locale, key@, *caption),
{
    let label = t(locale, key);
    match caption {
        Some(c) => {
            if c.as_str().is_empty() {
                label
            } else {
                let mut out = chars_of(label.as_str());
                out.push(' ');
                let cc = chars_of(clean_text(c.as_str()).as_str());
                let mut all: Vec<char> = Vec::new();
                push_range(&mut all, &out, 0, out.len());
                push_range(&mut all, &cc, 0, cc.len());
                assert(all@ =~= label@ + seq![' '] + without_selectors(c@));
                string_of(&all)
            }
        },
        None => label,
    }
}

/// The one line a reply shows of the message it answers.
pub fn quoted_summary(c: &Content, locale: Locale) -> (r: String)
    ensures
        r@ == quoted_summary_of(*c, locale),
{
    match c {
        Content::Conversation { text } => first_chars(clean_text(text.as_str()).as_str(), 120),
        Content::ExtendedText { text, .. } => match text {
            Some(s) => first_chars(clean_text(s.as_str()).as_str(), 120),
            None => String::new(),
        },
        Content::Image { caption, .. } => captioned_exec(locale, "preview.photo", caption),
        Content::Sticker { .. } => t(locale, "preview.sticker"),
        Content::Audio { .. } => t(locale, "preview.audio"),
        Content::Video { caption, .. } => captioned_exec(locale, "preview.video", caption),
        Content::Document { file_name, .. } => {
            let name = clean_text(text_or_empty(file_name).as_str());
            let args = [name.as_str()];
            let r = ta(locale, "preview.document", &args);
            assert(args@.map_values(|a: &str| a@) =~= seq![without_selectors(or_empty(*file_name))]);
            r
        },
        Content::Other => String::new(),
    }
}

// ---------------------------------------------------------------------------
// Link cards
// ---------------------------------------------------------------------------

/// The text without every leading copy of `p`.
pub open spec fn strip_all(s: Seq<char>, p: Seq<char>) -> Seq<char>
    decreases s.len(),
{
    if p.len() > 0 && starts_with(s, p) {
        strip_all(s.skip(p.len() as int), p)
    } else {
        s
    }
}

/// The host part of a link, as a card compares it: without the scheme,
/// up to the first "/".
pub open spec fn url_host(url: Seq<char>) -> Seq<char> {
    let s = strip_all(strip_all(url, "https://"@), "http://"@);
    s.take(find_char(s, '/', 0))
}

/// A link card says something: it has a picture, a title that is more
/// than the link or its host, or a description that is neither.
pub open spec fn informative(url: Seq<char>, title: Seq<char>, desc: Seq<char>, has_thumb: bool) -> bool {
    let host = url_host(url);
    ||| has_thumb
    ||| (title.len() != 0 && title != host && !contains(url, title))
    ||| (desc.len() != 0 && desc != url && desc != host)
}

fn strip_all_exec(s: &Vec<char>, p: &Vec<char>) -> (r: Vec<char>)
    ensures
        r@ == strip_all(s@, p@),
{
    let mut cur: Vec<char> = Vec::new();
    push_range(&mut cur, s, 0, s.len());
    assert(cur@ =~= s@);
    if p.len() == 0 {
        return cur;
    }
    while starts_with_of(&cur, p)
        invariant
            p@.len() > 0,
            strip_all(cur@, p@) == strip_all(s@, p@),
        decreases cur@.len(),
    {
        let mut next: Vec<char> = Vec::new();
        push_range(&mut next, &cur, p.len(), cur.len());
        assert(next@ =~= cur@.skip(p@.len() as int));
        cur = next;
    }
    cur
}

fn url_host_exec(url: &Vec<char>) -> (r: Vec<char>)
    ensures
        r@ == url_host(url@),
{
    let a = strip_all_exec(url, &chars_of("https://"));
    let b = strip_all_exec(&a, &chars_of("http://"));
    let k = find_char_of(&b, '/', 0);
    proof {
        crate::text::lemma_find_char(b@, '/', 0);
    }
    let mut out: Vec<char> = Vec::new();
    push_range(&mut out, &b, 0, k);
    assert(out@ =~= url_host(url@));
    out
}

fn informative_exec(url: &Vec<char>, title: &Vec<char>, desc: &Vec<char>, has_thumb: bool) -> (r: bool)
    ensures
        r == informative(url@, title@, desc@, has_thumb),
{
    let host = url_host_exec(url);
    has_thumb || (title.len() != 0 && !seq_eq(title, &host) && !contains_of(url, title)) || (desc.len() != 0
        && !seq_eq(desc, url) && !seq_eq(desc, &host))
}

// ---------------------------------------------------------------------------
// The stored message
// ---------------------------------------------------------------------------

/// The store after a lid-and-phone pair of one peer is learned.
pub open spec fn pair_learned(v: StoreView, a: Seq<char>, b: Seq<char>) -> StoreView {
    match lid_pn_pair(a, b) {
        Some((l, p)) => if v.aliases.contains_key(l) && v.aliases[l] == p {
            v
        } else {
            merged_store(StoreView { aliases: v.aliases.insert(l, p), ..v }, l, p)
        },
        None => v,
    }
}

/// The store after the other identity a message gives for `a` is learned.
pub open spec fn alt_learned(v: StoreView, a: Seq<char>, alt: Option<String>) -> StoreView {
    match alt {
        Some(b) => pair_learned(v, a, b@),
        None => v,
    }
}

/// Learning that identity keeps the merged chat's unread count in range.
pub open spec fn alt_fits(v: StoreView, a: Seq<char>, alt: Option<String>) -> bool {
    match alt {
        Some(b) => (lid_pn_pair(a, b@) matches Some((l, p)) ==> merge_fits(v, l, p)),
        None => true,
    }
}

/// The store once both other identities of a message are learned.
pub open spec fn alts_learned(v: StoreView, meta: LiveMeta) -> StoreView {
    alt_learned(alt_learned(v, meta.sender@, meta.sender_alt), meta.chat@, meta.recipient_alt)
}

/// A message mentions us: not one of ours, and it mentions the group or
/// one of our identities.
pub open spec fn mentions_self(v: StoreView, from_me: bool, ctx: Option<Context>) -> bool {
    !from_me && match ctx {
        Some(c) => c.group_mentions || exists|i: int|
            #![trigger c.mentioned@[i]]
            0 <= i < c.mentioned@.len() && v.self_jids.contains(canon_of(v.aliases, c.mentioned@[i].1@)),
        None => false,
    }
}

/// What a reply keeps of the message it answers: its id, its author and
/// its one-line summary.
pub open spec fn quote_of(v: StoreView, ctx: Option<Context>, locale: Locale) -> (Seq<char>, Seq<char>, Seq<char>) {
    match ctx {
        Some(c) => match c.quote {
            Some(q) => (
                or_empty(q.stanza_id),
                match q.participant {
                    Some(p) => canon_of(v.aliases, p@),
                    None => seq![],
                },
                quoted_summary_of(q.content, locale),
            ),
            None => (seq![], seq![], seq![]),
        },
        None => (seq![], seq![], seq![]),
    }
}

/// The message a content makes, on top of the fields every message has;
/// nothing for a content the store does not keep.
pub open spec fn with_content(base: MessageView, c: Content, ctx: Option<Context>, locale: Locale) -> Option<MessageView> {
    match c {
        Content::Conversation { text } => Some(MessageView { text: without_selectors(text@), ..base }),
        Content::ExtendedText { text, matched_text, title, description, has_thumb } => {
            let url = or_empty(matched_text);
            let lt = without_selectors(or_empty(title));
            let ld = without_selectors(or_empty(description));
            let card = informative(url, lt, ld, has_thumb) && url.len() != 0;
            Some(
                MessageView {
                    text: without_selectors(or_empty(text)),
                    mentions: match ctx {
                        Some(x) => x.mentioned@.map_values(|m: (String, String)| m.0@),
                        None => seq![],
                    },
                    link_title: if card { lt } else { base.link_title },
                    link_desc: if card { ld } else { base.link_desc },
                    link_url: if card { url } else { base.link_url },
                    ..base
                },
            )
        },
        Content::Sticker { width, height, mimetype } => Some(
            MessageView {
                kind: MessageKind::Image,
                sticker: true,
                media_w: or_num(width, 180),
                media_h: or_num(height, 180),
                mimetype: or_text(mimetype, "image/webp"@),
                ..base
            },
        ),
        Content::Video { caption, width, height, mimetype, seconds, gif_playback } => Some(
            MessageView {
                kind: MessageKind::Video,
                text: without_selectors(or_empty(caption)),
                media_w: or_num(width, 0),
                media_h: or_num(height, 0),
                mimetype: or_text(mimetype, "video/mp4"@),
                duration_sec: or_num(seconds, 0),
                gif: gif_playback == Some(true),
                ..base
            },
        ),
        Content::Image { caption, width, height, mimetype } => Some(
            MessageView {
                kind: MessageKind::Image,
                text: without_selectors(or_empty(caption)),
                media_w: or_num(width, 0),
                media_h: or_num(height, 0),
                mimetype: or_text(mimetype, "image/jpeg"@),
                ..base
            },
        ),
        Content::Document { file_name, mimetype } => Some(
            MessageView {
                kind: MessageKind::Doc,
                text: without_selectors(
                    match file_name {
                        Some(f) => f@,
                        None => translated(locale, "doc.fallbackName"@, seq![]),
                    },
                ),
                mimetype: or_text(mimetype, "application/octet-stream"@),
                ..base
            },
        ),
        Content::Audio { seconds, mimetype } => Some(
            MessageView {
                kind: MessageKind::Audio,
                text: duration_text(or_num(seconds, 0) as nat),
                mimetype: or_text(mimetype, "audio/ogg"@),
                duration_sec: or_num(seconds, 0),
                ..base
            },
        ),
        Content::Other => None,
    }
}

/// What a stored message takes from each kind of content: its kind, its
/// text (a caption, the file name, the text, all without variation
/// selectors; a voice note's duration), and its media fields with their
/// defaults.
pub open spec fn content_kept(c: Content, locale: Locale, x: MessageView) -> bool {
    match c {
        Content::Conversation { text } => x.text == without_selectors(text@),
        Content::ExtendedText { text, .. } => x.text == without_selectors(or_empty(text)),
        Content::Sticker { width, height, mimetype } => {
            &&& x.kind == MessageKind::Image
            &&& x.sticker
            &&& x.media_w == or_num(width, 180)
            &&& x.media_h == or_num(height, 180)
            &&& x.mimetype == or_text(mimetype, "image/webp"@)
        },
        Content::Video { caption, width, height, mimetype, seconds, gif_playback } => {
            &&& x.kind == MessageKind::Video
            &&& x.text == without_selectors(or_empty(caption))
            &&& x.media_w == or_num(width, 0)
            &&& x.media_h == or_num(height, 0)
            &&& x.mimetype == or_text(mimetype, "video/mp4"@)
            &&& x.duration_sec == or_num(seconds, 0)
            &&& x.gif == (gif_playback == Some(true))
        },
        Content::Image { caption, width, height, mimetype } => {
            &&& x.kind == MessageKind::Image
            &&& x.text == without_selectors(or_empty(caption))
            &&& x.media_w == or_num(width, 0)
            &&& x.media_h == or_num(height, 0)
            &&& x.mimetype == or_text(mimetype, "image/jpeg"@)
        },
        Content::Document { file_name, mimetype } => {
            &&& x.kind == MessageKind::Doc
            &&& x.text == without_selectors(or_text(file_name, translated(locale, "doc.fallbackName"@, seq![])))
            &&& x.mimetype == or_text(mimetype, "application/octet-stream"@)
        },
        Content::Audio { seconds, mimetype } => {
            &&& x.kind == MessageKind::Audio
            &&& x.text == duration_text(or_num(seconds, 0) as nat)
            &&& x.mimetype == or_text(mimetype, "audio/ogg"@)
            &&& x.duration_sec == or_num(seconds, 0)
        },
        Content::Other => false,
    }
}

/// Every content the store keeps makes a message that carries it: a photo
/// keeps its caption, a video its caption and length, a document its file
/// name, a voice note its duration, a sticker is a sticker picture; any
/// other content makes none.
pub proof fn law_content_makes_the_message(c: Content, ctx: Option<Context>, locale: Locale)
    ensures
        forall|base: MessageView| #[trigger] with_content(base, c, ctx, locale) matches Some(x) ==> content_kept(c, locale, x),
        forall|base: MessageView| (#[trigger] with_content(base, c, ctx, locale) is None) <==> c is Other,
{
}

/// The fields every message of a chat `j`, from `sj` named `sender`, has.
pub open spec fn base_message(
    v: StoreView,
    meta: LiveMeta,
    j: Seq<char>,
    sj: Seq<char>,
    sender: Seq<char>,
    ctx: Option<Context>,
    reactions: Map<Seq<char>, Seq<char>>,
    raw: Option<Seq<u8>>,
    status: u32,
    locale: Locale,
) -> MessageView {
    let q = quote_of(v, ctx, locale);
    MessageView {
        id: meta.id@,
        jid: j,
        kind: MessageKind::Text,
        text: seq![],
        from_me: meta.from_me,
        sender,
        sender_jid: sj,
        forwarded: match ctx {
            Some(c) => c.forwarded,
            None => false,
        },
        deleted: false,
        gif: false,
        starred: false,
        sticker: false,
        mentions: seq![],
        mentions_me: mentions_self(v, meta.from_me, ctx),
        quote_id: q.0,
        quote_author: q.1,
        quote_text: q.2,
        link_title: seq![],
        link_desc: seq![],
        link_url: seq![],
        timestamp: meta.timestamp,
        mimetype: seq![],
        media_w: 0,
        media_h: 0,
        duration_sec: 0,
        status: if meta.from_me {
            if status > 2 {
                status
            } else {
                2
            }
        } else {
            0
        },
        reactions,
        raw,
    }
}

fn option_num(o: &Option<u32>, d: u32) -> (r: u32)
    ensures
        r == or_num(*o, d),
{
    match o {
        Some(n) => *n,
        None => d,
    }
}

fn mentioned_raw(ctx: &Option<Context>) -> (r: Vec<String>)
    ensures
        r@.map_values(|s: String| s@) == match *ctx {
            Some(x) => x.mentioned@.map_values(|m: (String, String)| m.0@),
            None => Seq::<Seq<char>>::empty(),
        },
{
    let mut out: Vec<String> = Vec::new();
    match ctx {
        Some(c) => {
            let n = c.mentioned.len();
            let mut i: usize = 0;
            while i < n
                invariant
                    n == c.mentioned@.len(),
                    i <= n,
                    out@.map_values(|s: String| s@) =~= c.mentioned@.take(i as int).map_values(
                        |m: (String, String)| m.0@,
                    ),
                decreases n - i,
            {
                let ghost prev = out@;
                let x = c.mentioned[i].0.clone();
                out.push(x);
                assert(c.mentioned@.take(i + 1) =~= c.mentioned@.take(i as int).push(c.mentioned@[i as int]));
                assert(out@ =~= prev.push(x));
                assert(out@.map_values(|s: String| s@) =~= prev.map_values(|s: String| s@).push(x@));
                i = i + 1;
            }
            assert(c.mentioned@.take(n as int) =~= c.mentioned@);
        },
        None => {
            assert(out@.map_values(|s: String| s@) =~= Seq::<Seq<char>>::empty());
        },
    }
    out
}

/// Fills in what the content of a message gives.
fn message_with_content(base: StoredMessage, c: &Content, ctx: &Option<Context>, locale: Locale) -> (r: Option<StoredMessage>)
    ensures
        match with_content(base@, *c, *ctx, locale) {
            Some(m) => r matches Some(x) && x@ == m,
            None => r is None,
        },
{
    let mut m = base;
    match c {
        Content::Conversation { text } => {
            m.text = clean_text(text.as_str());
        },
        Content::ExtendedText { text, matched_text, title, description, has_thumb } => {
            m.text = clean_text(text_or_empty(text).as_str());
            m.mentions = mentioned_raw(ctx);
            let url = text_or_empty(matched_text);
            let lt = clean_text(text_or_empty(title).as_str());
            let ld = clean_text(text_or_empty(description).as_str());
            let uv = chars_of(url.as_str());
            if informative_exec(&uv, &chars_of(lt.as_str()), &chars_of(ld.as_str()), *has_thumb) && uv.len() != 0 {
                m.link_title = lt;
                m.link_desc = ld;
                m.link_url = url;
            }
        },
        Content::Sticker { width, height, mimetype } => {
            m.kind = MessageKind::Image;
            m.sticker = true;
            m.media_w = option_num(width, 180);
            m.media_h = option_num(height, 180);
            m.mimetype = text_or(mimetype, "image/webp");
        },
        Content::Video { caption, width, height, mimetype, seconds, gif_playback } => {
            m.kind = MessageKind::Video;
            m.text = clean_text(text_or_empty(caption).as_str());
            m.media_w = option_num(width, 0);
            m.media_h = option_num(height, 0);
            m.mimetype = text_or(mimetype, "video/mp4");
            m.duration_sec = option_num(seconds, 0);
            m.gif = match gif_playback {
                Some(g) => *g,
                None => false,
            };
        },
        Content::Image { caption, width, height, mimetype } => {
            m.kind = MessageKind::Image;
            m.text = clean_text(text_or_empty(caption).as_str());
            m.media_w = option_num(width, 0);
            m.media_h = option_num(height, 0);
            m.mimetype = text_or(mimetype, "image/jpeg");
        },
        Content::Document { file_name, mimetype } => {
            m.kind = MessageKind::Doc;
            let name = match file_name {
                Some(f) => f.clone(),
                None => t(locale, "doc.fallbackName"),
            };
            m.text = clean_text(name.as_str());
            m.mimetype = text_or(mimetype, "application/octet-stream");
        },
        Content::Audio { seconds, mimetype } => {
            let secs = option_num(seconds, 0);
            m.kind = MessageKind::Audio;
            m.text = format_duration(secs);
            m.mimetype = text_or(mimetype, "audio/ogg");
            m.duration_sec = secs;
        },
        Content::Other => {
            return None;
        },
    }
    Some(m)
}

impl Store {
    /// The message mentions one of our identities or the whole group.
    fn ctx_mentions_self(&self, ctx: &Option<Context>) -> (r: bool)
        ensures
            r == mentions_self(self@, false, *ctx),
    {
        match ctx {
            None => false,
            Some(c) => {
                if c.group_mentions {
                    return true;
                }
                let n = c.mentioned.len();
                let mut i: usize = 0;
                while i < n
                    invariant
                        n == c.mentioned@.len(),
                        i <= n,
                        !c.group_mentions,
                        *ctx == Some(*c),
                        forall|k: int|
                            #![trigger c.mentioned@[k]]
                            0 <= k < i ==> !self@.self_jids.contains(canon_of(self@.aliases, c.mentioned@[k].1@)),
                    decreases n - i,
                {
                    let canon = self.canon(c.mentioned[i].1.as_str());
                    if self.self_jids.contains(canon.as_str()) {
                        let ghost w = i as int;
                        assert(self@.self_jids.contains(canon_of(self@.aliases, c.mentioned@[w].1@)));
                        return true;
                    }
                    i = i + 1;
                }
                false
            },
        }
    }

    /// What a reply keeps of the message it answers.
    fn quote_parts(&self, ctx: &Option<Context>, locale: Locale) -> (r: (String, String, String))
        ensures
            (r.0@, r.1@, r.2@) == quote_of(self@, *ctx, locale),
    {
        match ctx {
            Some(c) => match &c.quote {
                Some(q) => {
                    let author = match &q.participant {
                        Some(p) => self.canon(p.as_str()),
                        None => String::new(),
                    };
                    (text_or_empty(&q.stanza_id), author, quoted_summary(&q.content, locale))
                },
                None => (String::new(), String::new(), String::new()),
            },
            None => (String::new(), String::new(), String::new()),
        }
    }

    /// The message a filed live message makes, once its chat, sender and
    /// sender name are known.
    fn compose(
        &self,
        meta: &LiveMeta,
        jid: String,
        sender_jid: String,
        sender: String,
        content: &Content,
        ctx: &Option<Context>,
        reactions: Table<String>,
        raw: Option<Vec<u8>>,
        status: u32,
        locale: Locale,
    ) -> (r: Option<StoredMessage>)
        ensures
            match with_content(
                base_message(self@, *meta, jid@, sender_jid@, sender@, *ctx, text_views(reactions@), raw_view(raw), status, locale),
                *content,
                *ctx,
                locale,
            ) {
                Some(m) => r matches Some(x) && x@ == m,
                None => r is None,
            },
    {
        let forwarded = match ctx {
            Some(c) => c.forwarded,
            None => false,
        };
        let mentions_me = !meta.from_me && self.ctx_mentions_self(ctx);
        let (quote_id, quote_author, quote_text) = self.quote_parts(ctx, locale);
        let base = StoredMessage {
            id: meta.id.to_string(),
            jid,
            kind: MessageKind::Text,
            text: String::new(),
            from_me: meta.from_me,
            sender,
            sender_jid,
            forwarded,
            deleted: false,
            gif: false,
            starred: false,
            sticker: false,
            mentions: Vec::new(),
            mentions_me,
            quote_id,
            quote_author,
            quote_text,
            link_title: String::new(),
            link_desc: String::new(),
            link_url: String::new(),
            timestamp: meta.timestamp,
            mimetype: String::new(),
            media_w: 0,
            media_h: 0,
            duration_sec: 0,
            status: if meta.from_me {
                if status > 2 {
                    status
                } else {
                    2
                }
            } else {
                0
            },
            reactions,
            raw,
        };
        assert(base.mentions@.map_values(|s: String| s@) =~= Seq::<Seq<char>>::empty());
        message_with_content(base, content, ctx, locale)
    }

    /// Files a message as the store keeps it: the other identities it
    /// gives for its chat and sender are learned, the chat and sender are
    /// resolved through the aliases and the name it announces is learned;
    /// nothing for a chat without a row, a message without an id, or a
    /// content the store does not keep.
    pub fn normalize(
        &mut self,
        meta: &LiveMeta,
        content: &Content,
        ctx: &Option<Context>,
        reactions: Table<String>,
        raw: Option<Vec<u8>>,
        status: u32,
        locale: Locale,
    ) -> (r: Option<StoredMessage>)
        requires
            alt_fits(old(self)@, meta.sender@, meta.sender_alt),
            alt_fits(alt_learned(old(self)@, meta.sender@, meta.sender_alt), meta.chat@, meta.recipient_alt),
        ensures
            ({
                let v1 = alts_learned(old(self)@, *meta);
                let j = canon_of(v1.aliases, meta.chat@);
                let sj = canon_of(v1.aliases, meta.sender@);
                if !displayable(j) || meta.id@.len() == 0 {
                    r is None && final(self)@ == v1
                } else {
                    let v2 = if !meta.from_me && meta.push_name@.len() != 0 {
                        StoreView { push_names: v1.push_names.insert(sj, meta.push_name@), ..v1 }
                    } else {
                        v1
                    };
                    let sender = if meta.from_me {
                        Seq::<char>::empty()
                    } else {
                        sender_name_of(v2, sj)
                    };
                    let base = base_message(v2, *meta, j, sj, sender, *ctx, text_views(reactions@), raw_view(raw), status, locale);
                    &&& final(self)@ == v2
                    &&& match with_content(base, *content, *ctx, locale) {
                        Some(m) => r matches Some(x) && x@ == m,
                        None => r is None,
                    }
                }
            }),
            r matches Some(x) ==> content_kept(*content, locale, x@),
    {
        proof {
            law_content_makes_the_message(*content, *ctx, locale);
        }
        if let Some(alt) = &meta.sender_alt {
            self.learn_pair(meta.sender.as_str(), alt.as_str());
        }
        if let Some(alt) = &meta.recipient_alt {
            self.learn_pair(meta.chat.as_str(), alt.as_str());
        }
        let (jid, sender_jid, sender) = match self.admit_live(meta) {
            Some(x) => x,
            None => {
                return None;
            },
        };
        self.compose(meta, jid, sender_jid, sender, content, ctx, reactions, raw, status, locale)
    }
}

// ---------------------------------------------------------------------------
// Status updates and synced reactions
// ---------------------------------------------------------------------------

/// What a status update shows: its kind and text (a video shows as its
/// picture); nothing for any other content.
pub open spec fn status_content(c: Content) -> Option<(MessageKind, Seq<char>)> {
    match c {
        Content::Conversation { text } => Some((MessageKind::Text, without_selectors(text@))),
        Content::ExtendedText { text, .. } => Some((MessageKind::Text, without_selectors(or_empty(text)))),
        Content::Image { caption, .. } => Some((MessageKind::Image, without_selectors(or_empty(caption)))),
        Content::Video { caption, .. } => Some((MessageKind::Image, without_selectors(or_empty(caption)))),
        _ => None,
    }
}

/// The status update a content makes, by `author` under the name `name`.
pub open spec fn status_message(
    id: Seq<char>,
    author: Seq<char>,
    name: Seq<char>,
    from_me: bool,
    timestamp: i64,
    kind: MessageKind,
    text: Seq<char>,
    raw: Option<Seq<u8>>,
) -> MessageView {
    MessageView {
        id,
        jid: author,
        kind,
        text,
        from_me,
        sender: name,
        sender_jid: author,
        forwarded: false,
        deleted: false,
        gif: false,
        starred: false,
        sticker: false,
        mentions: seq![],
        mentions_me: false,
        quote_id: seq![],
        quote_author: seq![],
        quote_text: seq![],
        link_title: seq![],
        link_desc: seq![],
        link_url: seq![],
        timestamp,
        mimetype: seq![],
        media_w: 0,
        media_h: 0,
        duration_sec: 0,
        status: 0,
        reactions: Map::empty(),
        raw,
    }
}

fn status_content_exec(c: &Content) -> (r: Option<(MessageKind, String)>)
    ensures
        match status_content(*c) {
            Some((k, t)) => r matches Some(x) && x.0 == k && x.1@ == t,
            None => r is None,
        },
{
    match c {
        Content::Conversation { text } => Some((MessageKind::Text, clean_text(text.as_str()))),
        Content::ExtendedText { text, .. } => Some((MessageKind::Text, clean_text(text_or_empty(text).as_str()))),
        Content::Image { caption, .. } => Some((MessageKind::Image, clean_text(text_or_empty(caption).as_str()))),
        Content::Video { caption, .. } => Some((MessageKind::Image, clean_text(text_or_empty(caption).as_str()))),
        _ => None,
    }
}

/// The reactions a synced message carries: each (emoji, reactor) with an
/// emoji, the reactor "?" when the sync names none; a later one of a
/// reactor replaces an earlier one.
pub open spec fn reactions_from(rs: Seq<(Option<String>, Option<String>)>) -> Map<Seq<char>, Seq<char>>
    decreases rs.len(),
{
    if rs.len() == 0 {
        Map::empty()
    } else {
        let prev = reactions_from(rs.drop_last());
        match rs.last().0 {
            Some(e) => if e@.len() != 0 {
                prev.insert(or_text(rs.last().1, "?"@), without_selectors(e@))
            } else {
                prev
            },
            None => prev,
        }
    }
}

/// The reactions of a synced message, from its (emoji, reactor in normal
/// form) pairs.
pub fn history_reactions(rs: &Vec<(Option<String>, Option<String>)>) -> (r: Table<String>)
    ensures
        text_views(r@) == reactions_from(rs@),
{
    let mut out: Table<String> = Table::new();
    let n = rs.len();
    let mut i: usize = 0;
    assert(rs@.take(0) =~= Seq::<(Option<String>, Option<String>)>::empty());
    assert(text_views(out@) =~= Map::<Seq<char>, Seq<char>>::empty());
    while i < n
        invariant
            n == rs@.len(),
            i <= n,
            text_views(out@) == reactions_from(rs@.take(i as int)),
        decreases n - i,
    {
        assert(rs@.take(i + 1).drop_last() =~= rs@.take(i as int));
        let (emoji, reactor) = (&rs[i].0, &rs[i].1);
        match emoji {
            Some(e) => {
                if !e.as_str().is_empty() {
                    let who = text_or(reactor, "?");
                    let ghost prev = out@;
                    let v = clean_text(e.as_str());
                    out.insert(who, v);
                    assert(text_views(out@) =~= text_views(prev).insert(or_text(*reactor, "?"@), v@));
                }
            },
            None => {},
        }
        i = i + 1;
    }
    assert(rs@.take(n as int) =~= rs@);
    out
}

impl Store {
    /// Files a status update by the author of `sender`: the name it
    /// announces becomes the author's contact name; the update shows its
    /// text or caption under the author's contact name (else readable
    /// identity). Nothing for an author that resolves to nothing, or a
    /// content a status cannot show.
    pub fn status_entry(
        &mut self,
        sender: &str,
        id: &str,
        from_me: bool,
        push_name: &str,
        timestamp: i64,
        content: &Content,
        raw: Option<Vec<u8>>,
    ) -> (r: Option<StoredMessage>)
        ensures
            ({
                let v = old(self)@;
                let author = canon_of(v.aliases, sender@);
                if author.len() == 0 {
                    r is None && final(self)@ == v
                } else {
                    let v2 = if push_name@.len() != 0 {
                        StoreView { contacts: v.contacts.insert(author, push_name@), ..v }
                    } else {
                        v
                    };
                    let name = if v2.contacts.contains_key(author) {
                        v2.contacts[author]
                    } else {
                        display_id_of(author)
                    };
                    &&& final(self)@ == v2
                    &&& match status_content(*content) {
                        Some((kind, text)) => r matches Some(x) && x@ == status_message(
                            id@,
                            author,
                            name,
                            from_me,
                            timestamp,
                            kind,
                            text,
                            raw_view(raw),
                        ),
                        None => r is None,
                    }
                }
            }),
    {
        let author = self.canon(sender);
        if author.as_str().is_empty() {
            return None;
        }
        if !push_name.is_empty() {
            self.contacts.insert(author.clone(), push_name.to_string());
            assert(self@.contacts =~= old(self)@.contacts.insert(author@, push_name@));
        }
        let (kind, text) = match status_content_exec(content) {
            Some(x) => x,
            None => {
                return None;
            },
        };
        let name = match self.contacts.get(author.as_str()) {
            Some(n) => n.clone(),
            None => display_id(author.as_str()),
        };
        let m = StoredMessage {
            id: id.to_string(),
            jid: author.clone(),
            kind,
            text,
            from_me,
            sender: name,
            sender_jid: author,
            forwarded: false,
            deleted: false,
            gif: false,
            starred: false,
            sticker: false,
            mentions: Vec::new(),
            mentions_me: false,
            quote_id: String::new(),
            quote_author: String::new(),
            quote_text: String::new(),
            link_title: String::new(),
            link_desc: String::new(),
            link_url: String::new(),
            timestamp,
            mimetype: String::new(),
            media_w: 0,
            media_h: 0,
            duration_sec: 0,
            status: 0,
            reactions: Table::new(),
            raw,
        };
        assert(m@.mentions =~= Seq::<Seq<char>>::empty());
        assert(m@.reactions =~= Map::<Seq<char>, Seq<char>>::empty());
        Some(m)
    }
}

} // verus!
