//! Chat, call and message metadata, and the jid helpers used to show them:
//! which chats are groups or channels, how an unnamed contact is shown,
//! phone numbers and durations as text.
use vstd::prelude::*;
use crate::text::{
    chars_of, string_of, ends_with, str_ends_with, str_eq, find_char, find_char_of,
    lemma_find_char, all_ascii_digits, starts_with, push_range, push_decimal, decimal,
    digit_char_of, digit_char,
};
use crate::table::{Table, KeySet};
use crate::i18n::{Locale, t, ta, translated};
use crate::search::{joined, space_words, space_words_exec};
use crate::vault::{b64_encode, b64_text};

verus! {

broadcast use vstd::string::group_string_axioms;

#[derive(Clone, Copy, PartialEq, Eq, Debug)]
pub enum MessageKind {
    Text,
    Image,
    Audio,
    Doc,
    Video,
}

#[derive(Clone)]
pub struct CallEntry {
    pub id: String,
    /// The caller (or group) jid.
    pub jid: String,
    pub video: bool,
    pub group: bool,
    /// offer | accept | reject | timeout | terminate
    pub status: String,
    pub timestamp: i64,
}

#[derive(Clone, Default)]
pub struct ChatMeta {
    pub jid: String,
    pub name: String,
    pub preview: String,
    pub timestamp: i64,
    pub unread: u32,
    /// An unread message mentions us.
    pub mentioned: bool,
    /// Pin timestamp; 0 = not pinned.
    pub pinned: i64,
    pub archived: bool,
    /// Parent community jid, when this group belongs to one.
    pub community: String,
    /// This jid is the community itself.
    pub is_community: bool,
}

/// A channel (newsletter) jid.
pub fn is_channel(jid: &str) -> (r: bool)
    ensures
        r == ends_with(jid@, "@newsletter"@),
{
    str_ends_with(jid, "@newsletter")
}

/// A group jid.
pub fn is_group(jid: &str) -> (r: bool)
    ensures
        r == ends_with(jid@, "@g.us"@),
{
    str_ends_with(jid, "@g.us")
}

/// A jid that gets a chat row: a person, a group, a lid or a channel, but
/// never a broadcast list or the status feed.
pub open spec fn displayable(jid: Seq<char>) -> bool {
    &&& jid.len() != 0
    &&& jid != "status@broadcast"@
    &&& !ends_with(jid, "@broadcast"@)
    &&& {
        ||| ends_with(jid, "@s.whatsapp.net"@)
        ||| ends_with(jid, "@g.us"@)
        ||| ends_with(jid, "@lid"@)
        ||| ends_with(jid, "@newsletter"@)
    }
}

pub fn is_displayable_jid(jid: &str) -> (r: bool)
    ensures
        r == displayable(jid@),
{
    if jid.is_empty() || str_eq(jid, "status@broadcast") || str_ends_with(jid, "@broadcast") {
        return false;
    }
    str_ends_with(jid, "@s.whatsapp.net") || str_ends_with(jid, "@g.us") || str_ends_with(
        jid,
        "@lid",
    ) || is_channel(jid)
}

/// A variation selector (U+FE00 to U+FE0F).
pub open spec fn is_variation_selector(c: char) -> bool {
    '\u{FE00}' <= c <= '\u{FE0F}'
}

/// `s` without variation selectors.
pub open spec fn without_selectors(s: Seq<char>) -> Seq<char>
    decreases s.len(),
{
    if s.len() == 0 {
        seq![]
    } else if is_variation_selector(s.last()) {
        without_selectors(s.drop_last())
    } else {
        without_selectors(s.drop_last()).push(s.last())
    }
}

proof fn lemma_without_selectors_is_clean(s: Seq<char>)
    ensures
        forall|i: int| 0 <= i < without_selectors(s).len()
            ==> !is_variation_selector(#[trigger] without_selectors(s)[i]),
    decreases s.len(),
{
    if s.len() > 0 {
        lemma_without_selectors_is_clean(s.drop_last());
        let p = without_selectors(s.drop_last());
        if !is_variation_selector(s.last()) {
            assert forall|i: int| 0 <= i < p.push(s.last()).len()
                implies !is_variation_selector(#[trigger] p.push(s.last())[i]) by {
                if i < p.len() {
                    assert(p.push(s.last())[i] == p[i]);
                }
            }
        }
    }
}

proof fn lemma_clean_text_kept(s: Seq<char>)
    requires
        forall|i: int| 0 <= i < s.len() ==> !is_variation_selector(#[trigger] s[i]),
    ensures
        without_selectors(s) == s,
    decreases s.len(),
{
    if s.len() > 0 {
        assert(!is_variation_selector(s[s.len() - 1]));
        assert forall|i: int| 0 <= i < s.drop_last().len() implies !is_variation_selector(#[trigger] s.drop_last()[i]) by {
            assert(s.drop_last()[i] == s[i]);
        }
        lemma_clean_text_kept(s.drop_last());
        assert(s.drop_last().push(s.last()) =~= s);
    }
}

/// Cleaning a cleaned text changes nothing: no selector is left to strip.
pub proof fn law_clean_text_is_idempotent(s: Seq<char>)
    ensures
        without_selectors(without_selectors(s)) == without_selectors(s),
{
    lemma_without_selectors_is_clean(s);
    lemma_clean_text_kept(without_selectors(s));
}

/// The text with emoji variation selectors stripped (the renderer shows
/// tofu for an emoji followed by one; without it the colored glyph shows).
pub fn clean_text(s: &str) -> (r: String)
    ensures
        r@ == without_selectors(s@),
{
    let v = chars_of(s);
    let mut out: Vec<char> = Vec::new();
    let mut i: usize = 0;
    while i < v.len()
        invariant
            i <= v@.len(),
            out@ == without_selectors(v@.take(i as int)),
        decreases v.len() - i,
    {
        let c = v[i];
        if !('\u{FE00}' <= c && c <= '\u{FE0F}') {
            out.push(c);
        }
        assert(v@.take(i + 1).drop_last() =~= v@.take(i as int));
        i = i + 1;
    }
    assert(v@.take(v@.len() as int) =~= v@);
    string_of(&out)
}

/// The user part of a jid: what comes before its first `@`.
pub open spec fn user_of(jid: Seq<char>) -> Seq<char> {
    jid.take(find_char(jid, '@', 0))
}

/// A readable identity for a jid without a known name: a phone jid whose
/// user part is 10 to 15 digits shows as "+digits", any other jid as its
/// user part.
pub open spec fn display_id_of(jid: Seq<char>) -> Seq<char> {
    let user = user_of(jid);
    if ends_with(jid, "@s.whatsapp.net"@) && 10 <= user.len() <= 15 && all_ascii_digits(user) {
        seq!['+'] + user
    } else {
        user
    }
}

fn user_of_exec(v: &Vec<char>) -> (u: Vec<char>)
    ensures
        u@ == user_of(v@),
{
    let k = find_char_of(v, '@', 0);
    proof {
        lemma_find_char(v@, '@', 0);
    }
    let mut u: Vec<char> = Vec::new();
    push_range(&mut u, v, 0, k);
    assert(v@.subrange(0, k as int) =~= v@.take(k as int));
    u
}

fn all_digits_of(v: &Vec<char>) -> (r: bool)
    ensures
        r == all_ascii_digits(v@),
{
    let mut i: usize = 0;
    while i < v.len()
        invariant
            i <= v@.len(),
            forall|k: int| 0 <= k < i ==> '0' <= #[trigger] v@[k] <= '9',
        decreases v.len() - i,
    {
        if !('0' <= v[i] && v[i] <= '9') {
            return false;
        }
        i = i + 1;
    }
    true
}

pub fn display_id(jid: &str) -> (r: String)
    ensures
        r@ == display_id_of(jid@),
{
    let v = chars_of(jid);
    let user = user_of_exec(&v);
    if str_ends_with(jid, "@s.whatsapp.net") && 10 <= user.len() && user.len() <= 15
        && all_digits_of(&user) {
        let mut out: Vec<char> = Vec::new();
        out.push('+');
        let mut full = out;
        crate::text::push_all(&mut full, &user);
        return string_of(&full);
    }
    string_of(&user)
}

/// The ASCII digits of `s`, in order.
pub open spec fn ascii_digits_of(s: Seq<char>) -> Seq<char>
    decreases s.len(),
{
    if s.len() == 0 {
        seq![]
    } else if '0' <= s.last() <= '9' {
        ascii_digits_of(s.drop_last()).push(s.last())
    } else {
        ascii_digits_of(s.drop_last())
    }
}

/// A phone jid as a number: "+55 AA NNNNN-NNNN" for a Brazilian number of
/// 12 or 13 digits, "+digits" otherwise; nothing for a lid (not a phone
/// number) or a jid without digits.
pub open spec fn formatted_number(jid: Seq<char>) -> Seq<char> {
    let d = ascii_digits_of(user_of(jid));
    if ends_with(jid, "@lid"@) || d.len() == 0 {
        seq![]
    } else if starts_with(d, seq!['5', '5']) && (d.len() == 12 || d.len() == 13) {
        let rest = d.subrange(4, d.len() as int);
        let split = rest.len() - 4;
        seq!['+', '5', '5', ' '] + d.subrange(2, 4) + seq![' '] + rest.take(split) + seq!['-']
            + rest.skip(split)
    } else {
        seq!['+'] + d
    }
}

/// Every char is an ASCII digit, '+', ' ' or '-'.
pub open spec fn number_chars(s: Seq<char>) -> bool {
    forall|i: int| 0 <= i < s.len() ==> ('0' <= #[trigger] s[i] <= '9') || s[i] == '+' || s[i] == ' ' || s[i] == '-'
}

proof fn lemma_digits_join(a: Seq<char>, b: Seq<char>)
    ensures
        ascii_digits_of(a + b) == ascii_digits_of(a) + ascii_digits_of(b),
    decreases b.len(),
{
    if b.len() == 0 {
        assert(a + b =~= a);
        assert(ascii_digits_of(a) + ascii_digits_of(b) =~= ascii_digits_of(a));
    } else {
        lemma_digits_join(a, b.drop_last());
        assert((a + b).drop_last() =~= a + b.drop_last());
        assert((a + b).last() == b.last());
        if '0' <= b.last() <= '9' {
            assert(ascii_digits_of(a) + ascii_digits_of(b.drop_last()).push(b.last())
                =~= (ascii_digits_of(a) + ascii_digits_of(b.drop_last())).push(b.last()));
        }
    }
}

proof fn lemma_digits_kept(d: Seq<char>)
    requires
        forall|i: int| 0 <= i < d.len() ==> '0' <= #[trigger] d[i] <= '9',
    ensures
        ascii_digits_of(d) == d,
    decreases d.len(),
{
    if d.len() > 0 {
        assert('0' <= d[d.len() - 1] <= '9');
        assert forall|i: int| 0 <= i < d.drop_last().len() implies '0' <= #[trigger] d.drop_last()[i] <= '9' by {
            assert(d.drop_last()[i] == d[i]);
        }
        lemma_digits_kept(d.drop_last());
        assert(d.drop_last().push(d.last()) =~= d);
    }
}

proof fn lemma_digits_are_digits(s: Seq<char>)
    ensures
        forall|i: int| 0 <= i < ascii_digits_of(s).len() ==> '0' <= #[trigger] ascii_digits_of(s)[i] <= '9',
    decreases s.len(),
{
    if s.len() > 0 {
        lemma_digits_are_digits(s.drop_last());
        let p = ascii_digits_of(s.drop_last());
        if '0' <= s.last() <= '9' {
            assert forall|i: int| 0 <= i < p.push(s.last()).len()
                implies '0' <= #[trigger] p.push(s.last())[i] <= '9' by {
                if i < p.len() {
                    assert(p.push(s.last())[i] == p[i]);
                }
            }
        }
    }
}

proof fn lemma_no_digit(c: char)
    requires
        !('0' <= c <= '9'),
    ensures
        ascii_digits_of(seq![c]) == Seq::<char>::empty(),
{
    assert(seq![c].drop_last() =~= Seq::<char>::empty());
    assert(ascii_digits_of(Seq::<char>::empty()) == Seq::<char>::empty());
    assert(seq![c].last() == c);
}

/// A formatted number is empty exactly for a lid or a jid whose user part
/// has no digit; otherwise it is '+' and the same digits in the same order,
/// with only spaces and a hyphen added.
pub proof fn law_number_keeps_its_digits(jid: Seq<char>)
    ensures
        (formatted_number(jid).len() == 0) <==> (ends_with(jid, "@lid"@) || ascii_digits_of(user_of(jid)).len() == 0),
        formatted_number(jid).len() > 0 ==> {
            &&& formatted_number(jid)[0] == '+'
            &&& ascii_digits_of(formatted_number(jid)) == ascii_digits_of(user_of(jid))
            &&& number_chars(formatted_number(jid))
        },
{
    let d = ascii_digits_of(user_of(jid));
    lemma_digits_are_digits(user_of(jid));
    lemma_digits_kept(d);
    lemma_no_digit('+');
    lemma_no_digit(' ');
    lemma_no_digit('-');
    if ends_with(jid, "@lid"@) || d.len() == 0 {
    } else if starts_with(d, seq!['5', '5']) && (d.len() == 12 || d.len() == 13) {
        let rest = d.subrange(4, d.len() as int);
        let split = rest.len() - 4;
        let a = seq!['+', '5', '5', ' '];
        let b = d.subrange(2, 4);
        let c = rest.take(split);
        let e = rest.skip(split);
        let r = a + b + seq![' '] + c + seq!['-'] + e;
        assert(r == formatted_number(jid));
        assert(a =~= seq!['+'] + (seq!['5', '5'] + seq![' ']));
        assert(seq!['5', '5'] =~= d.take(2));
        lemma_digits_join(seq!['+'], seq!['5', '5'] + seq![' ']);
        lemma_digits_join(seq!['5', '5'], seq![' ']);
        lemma_digits_kept(seq!['5', '5']);
        lemma_digits_kept(b);
        lemma_digits_kept(c);
        lemma_digits_kept(e);
        lemma_digits_join(a, b);
        lemma_digits_join(a + b, seq![' ']);
        lemma_digits_join(a + b + seq![' '], c);
        lemma_digits_join(a + b + seq![' '] + c, seq!['-']);
        lemma_digits_join(a + b + seq![' '] + c + seq!['-'], e);
        assert(ascii_digits_of(r) =~= d.take(2) + b + c + e);
        assert(d.take(2) + b + c + e =~= d);
        assert forall|i: int| 0 <= i < r.len() implies ('0' <= #[trigger] r[i] <= '9') || r[i] == '+' || r[i] == ' ' || r[i] == '-' by {
            if i < 4 {
            } else if i < 6 {
                assert(r[i] == d[i - 2]);
            } else if i == 6 {
            } else if i < 7 + c.len() {
                assert(r[i] == d[i - 3]);
            } else if i == 7 + c.len() {
            } else {
                assert(r[i] == d[i - 4]);
            }
        }
    } else {
        lemma_digits_join(seq!['+'], d);
        assert forall|i: int| 0 <= i < (seq!['+'] + d).len() implies ('0' <= #[trigger] (seq!['+'] + d)[i] <= '9') || (seq!['+'] + d)[i] == '+' || (seq!['+'] + d)[i] == ' ' || (seq!['+'] + d)[i] == '-' by {
            if i > 0 {
                assert((seq!['+'] + d)[i] == d[i - 1]);
            }
        }
    }
}

pub fn format_number(jid: &str) -> (r: String)
    ensures
        r@ == formatted_number(jid@),
{
    if str_ends_with(jid, "@lid") {
        let e: Vec<char> = Vec::new();
        return string_of(&e);
    }
    let v = chars_of(jid);
    let user = user_of_exec(&v);
    let mut d: Vec<char> = Vec::new();
    let mut i: usize = 0;
    while i < user.len()
        invariant
            i <= user@.len(),
            d@ == ascii_digits_of(user@.take(i as int)),
        decreases user.len() - i,
    {
        if '0' <= user[i] && user[i] <= '9' {
            d.push(user[i]);
        }
        assert(user@.take(i + 1).drop_last() =~= user@.take(i as int));
        i = i + 1;
    }
    assert(user@.take(user@.len() as int) =~= user@);
    let mut out: Vec<char> = Vec::new();
    if d.len() == 0 {
        return string_of(&out);
    }
    let n = d.len();
    if (n == 12 || n == 13) && d[0] == '5' && d[1] == '5' {
        assert(d@.subrange(0, 2) =~= seq!['5', '5']);
        out.push('+');
        out.push('5');
        out.push('5');
        out.push(' ');
        push_range(&mut out, &d, 2, 4);
        out.push(' ');
        push_range(&mut out, &d, 4, n - 4);
        out.push('-');
        push_range(&mut out, &d, n - 4, n);
        let ghost rest = d@.subrange(4, n as int);
        assert(rest.take(rest.len() - 4) =~= d@.subrange(4, n - 4));
        assert(rest.skip(rest.len() - 4) =~= d@.subrange(n - 4, n as int));
        assert(out@ =~= formatted_number(jid@));
        return string_of(&out);
    }
    proof {
        if starts_with(d@, seq!['5', '5']) && (d@.len() == 12 || d@.len() == 13) {
            assert(d@.subrange(0, 2)[0] == '5');
            assert(d@.subrange(0, 2)[1] == '5');
        }
    }
    out.push('+');
    crate::text::push_all(&mut out, &d);
    string_of(&out)
}

/// A duration as "m:ss".
pub open spec fn duration_text(seconds: nat) -> Seq<char> {
    decimal(seconds / 60) + seq![':', digit_char((seconds % 60) / 10), digit_char(seconds % 10)]
}

pub fn format_duration(seconds: u32) -> (r: String)
    ensures
        r@ == duration_text(seconds as nat),
{
    let mut out: Vec<char> = Vec::new();
    push_decimal(&mut out, (seconds / 60) as u64);
    out.push(':');
    let rem = seconds % 60;
    out.push(digit_char_of((rem / 10) as u64));
    out.push(digit_char_of((rem % 10) as u64));
    assert((seconds % 60) % 10 == seconds % 10) by (nonlinear_arith);
    assert(out@ =~= duration_text(seconds as nat));
    string_of(&out)
}

// ---------------------------------------------------------------------------
// Messages and the store
// ---------------------------------------------------------------------------

/// One stored message.
pub struct StoredMessage {
    pub id: String,
    pub jid: String,
    pub kind: MessageKind,
    pub text: String,
    pub from_me: bool,
    pub sender: String,
    pub sender_jid: String,
    pub forwarded: bool,
    pub deleted: bool,
    pub gif: bool,
    pub starred: bool,
    pub sticker: bool,
    pub mentions: Vec<String>,
    pub mentions_me: bool,
    /// The message this one replies to, as WhatsApp sends it inline.
    pub quote_id: String,
    pub quote_author: String,
    pub quote_text: String,
    pub link_title: String,
    pub link_desc: String,
    pub link_url: String,
    pub timestamp: i64,
    pub mimetype: String,
    pub media_w: u32,
    pub media_h: u32,
    pub duration_sec: u32,
    /// Delivery status of an own message (2 ack, 3 delivered, 4 read).
    pub status: u32,
    /// Reactor jid to emoji.
    pub reactions: Table<String>,
    /// The full message protobuf, encoded, kept for media download,
    /// forwarding and quoting.
    pub raw: Option<Vec<u8>>,
}

/// What a stored message holds, as plain values.
pub struct MessageView {
    pub id: Seq<char>,
    pub jid: Seq<char>,
    pub kind: MessageKind,
    pub text: Seq<char>,
    pub from_me: bool,
    pub sender: Seq<char>,
    pub sender_jid: Seq<char>,
    pub forwarded: bool,
    pub deleted: bool,
    pub gif: bool,
    pub starred: bool,
    pub sticker: bool,
    pub mentions: Seq<Seq<char>>,
    pub mentions_me: bool,
    pub quote_id: Seq<char>,
    pub quote_author: Seq<char>,
    pub quote_text: Seq<char>,
    pub link_title: Seq<char>,
    pub link_desc: Seq<char>,
    pub link_url: Seq<char>,
    pub timestamp: i64,
    pub mimetype: Seq<char>,
    pub media_w: u32,
    pub media_h: u32,
    pub duration_sec: u32,
    pub status: u32,
    pub reactions: Map<Seq<char>, Seq<char>>,
    pub raw: Option<Seq<u8>>,
}

/// The text values of a map, as text.
pub open spec fn text_views(m: Map<Seq<char>, String>) -> Map<Seq<char>, Seq<char>> {
    m.map_values(|s: String| s@)
}

pub open spec fn raw_view(raw: Option<Vec<u8>>) -> Option<Seq<u8>> {
    match raw {
        Some(b) => Some(b@),
        None => None,
    }
}

impl View for StoredMessage {
    type V = MessageView;

    open spec fn view(&self) -> MessageView {
        MessageView {
            id: self.id@,
            jid: self.jid@,
            kind: self.kind,
            text: self.text@,
            from_me: self.from_me,
            sender: self.sender@,
            sender_jid: self.sender_jid@,
            forwarded: self.forwarded,
            deleted: self.deleted,
            gif: self.gif,
            starred: self.starred,
            sticker: self.sticker,
            mentions: self.mentions@.map_values(|s: String| s@),
            mentions_me: self.mentions_me,
            quote_id: self.quote_id@,
            quote_author: self.quote_author@,
            quote_text: self.quote_text@,
            link_title: self.link_title@,
            link_desc: self.link_desc@,
            link_url: self.link_url@,
            timestamp: self.timestamp,
            mimetype: self.mimetype@,
            media_w: self.media_w,
            media_h: self.media_h,
            duration_sec: self.duration_sec,
            status: self.status,
            reactions: text_views(self.reactions@),
            raw: raw_view(self.raw),
        }
    }
}

/// A chat's metadata as plain values.
pub struct ChatView {
    pub jid: Seq<char>,
    pub name: Seq<char>,
    pub preview: Seq<char>,
    pub timestamp: i64,
    pub unread: u32,
    pub mentioned: bool,
    pub pinned: i64,
    pub archived: bool,
    pub community: Seq<char>,
    pub is_community: bool,
}

impl View for ChatMeta {
    type V = ChatView;

    open spec fn view(&self) -> ChatView {
        ChatView {
            jid: self.jid@,
            name: self.name@,
            preview: self.preview@,
            timestamp: self.timestamp,
            unread: self.unread,
            mentioned: self.mentioned,
            pinned: self.pinned,
            archived: self.archived,
            community: self.community@,
            is_community: self.is_community,
        }
    }
}

/// A call log entry as plain values.
pub struct CallView {
    pub id: Seq<char>,
    pub jid: Seq<char>,
    pub video: bool,
    pub group: bool,
    pub status: Seq<char>,
    pub timestamp: i64,
}

impl View for CallEntry {
    type V = CallView;

    open spec fn view(&self) -> CallView {
        CallView {
            id: self.id@,
            jid: self.jid@,
            video: self.video,
            group: self.group,
            status: self.status@,
            timestamp: self.timestamp,
        }
    }
}

/// A list of messages, as plain values.
pub open spec fn list_view(v: Seq<StoredMessage>) -> Seq<MessageView> {
    v.map_values(|m: StoredMessage| m@)
}

pub open spec fn list_views(m: Map<Seq<char>, Vec<StoredMessage>>) -> Map<Seq<char>, Seq<MessageView>> {
    m.map_values(|v: Vec<StoredMessage>| list_view(v@))
}

pub open spec fn chat_views(m: Map<Seq<char>, ChatMeta>) -> Map<Seq<char>, ChatView> {
    m.map_values(|c: ChatMeta| c@)
}

/// A chat from history sync or a chat update; `None` leaves a field as it was.
pub struct HistChat {
    pub jid: String,
    pub name: Option<String>,
    pub timestamp: i64,
    pub unread: Option<u32>,
    pub pinned: Option<i64>,
    pub archived: Option<bool>,
}

/// The in-memory chat and message store. Jids are canonical: device suffix
/// stripped, and a lid resolved through the alias table when it is known.
pub struct Store {
    pub chats: Table<ChatMeta>,
    /// Our own identities (phone jid and lid).
    pub self_jids: KeySet,
    pub messages: Table<Vec<StoredMessage>>,
    /// Address-book names.
    pub contacts: Table<String>,
    /// Names announced in messages.
    pub push_names: Table<String>,
    /// A lid jid to its phone-number jid.
    pub aliases: Table<String>,
    /// Stars can arrive before the message does.
    pub starred_ids: KeySet,
    /// Jids known from the address book.
    pub saved_contacts: KeySet,
    pub deleted_jids: KeySet,
    pub calls: Vec<CallEntry>,
    /// Author jid to status updates (24 hours of life).
    pub statuses: Table<Vec<StoredMessage>>,
    pub dirty_jids: KeySet,
    /// Chats whose message list has been read from the vault this run;
    /// cold chats keep only their metadata in memory.
    pub hydrated: KeySet,
    pub calls_dirty: bool,
    pub starred_dirty: bool,
    pub statuses_dirty: bool,
}

/// The store as plain values.
pub struct StoreView {
    pub chats: Map<Seq<char>, ChatView>,
    pub self_jids: Set<Seq<char>>,
    pub messages: Map<Seq<char>, Seq<MessageView>>,
    pub contacts: Map<Seq<char>, Seq<char>>,
    pub push_names: Map<Seq<char>, Seq<char>>,
    pub aliases: Map<Seq<char>, Seq<char>>,
    pub starred_ids: Set<Seq<char>>,
    pub saved_contacts: Set<Seq<char>>,
    pub deleted_jids: Set<Seq<char>>,
    pub calls: Seq<CallView>,
    pub statuses: Map<Seq<char>, Seq<MessageView>>,
    pub dirty_jids: Set<Seq<char>>,
    pub hydrated: Set<Seq<char>>,
    pub calls_dirty: bool,
    pub starred_dirty: bool,
    pub statuses_dirty: bool,
}

impl View for Store {
    type V = StoreView;

    open spec fn view(&self) -> StoreView {
        StoreView {
            chats: chat_views(self.chats@),
            self_jids: self.self_jids@,
            messages: list_views(self.messages@),
            contacts: text_views(self.contacts@),
            push_names: text_views(self.push_names@),
            aliases: text_views(self.aliases@),
            starred_ids: self.starred_ids@,
            saved_contacts: self.saved_contacts@,
            deleted_jids: self.deleted_jids@,
            calls: self.calls@.map_values(|c: CallEntry| c@),
            statuses: list_views(self.statuses@),
            dirty_jids: self.dirty_jids@,
            hydrated: self.hydrated@,
            calls_dirty: self.calls_dirty,
            starred_dirty: self.starred_dirty,
            statuses_dirty: self.statuses_dirty,
        }
    }
}

/// A jid resolved through the lid-to-phone alias table.
pub open spec fn canon_of(aliases: Map<Seq<char>, Seq<char>>, jid: Seq<char>) -> Seq<char> {
    if aliases.contains_key(jid) {
        aliases[jid]
    } else {
        jid
    }
}

/// The name a chat list shows for a jid: the address-book name, else the
/// chat's own name, else the name announced in messages (each without
/// variation selectors), else its readable identity.
pub open spec fn chat_name_of(v: StoreView, jid: Seq<char>) -> Seq<char> {
    if v.contacts.contains_key(jid) {
        without_selectors(v.contacts[jid])
    } else if v.chats.contains_key(jid) && v.chats[jid].name.len() != 0 {
        without_selectors(v.chats[jid].name)
    } else if v.push_names.contains_key(jid) {
        without_selectors(v.push_names[jid])
    } else {
        display_id_of(jid)
    }
}

/// A jid counts as saved when the address book knows it, or when the phone
/// gave its chat a name (which it only does for saved contacts).
pub open spec fn is_saved_in(v: StoreView, jid: Seq<char>) -> bool {
    v.saved_contacts.contains(jid) || (v.chats.contains_key(jid) && v.chats[jid].name.len() != 0
        && ends_with(jid, "@s.whatsapp.net"@))
}

/// The metadata a chat update leaves behind.
pub open spec fn upserted_chat(
    existing: Option<ChatView>,
    jid: Seq<char>,
    name: Option<Seq<char>>,
    timestamp: i64,
    unread: Option<u32>,
    pinned: Option<i64>,
    archived: Option<bool>,
) -> ChatView {
    let old_ts: i64 = match existing { Some(e) => e.timestamp, None => 0 };
    ChatView {
        jid,
        name: match name {
            Some(n) if n.len() != 0 => n,
            _ => match existing { Some(e) => e.name, None => seq![] },
        },
        preview: match existing { Some(e) => e.preview, None => seq![] },
        timestamp: if timestamp >= old_ts { timestamp } else { old_ts },
        unread: match unread {
            Some(u) => u,
            None => match existing { Some(e) => e.unread, None => 0 },
        },
        mentioned: match existing { Some(e) => e.mentioned, None => false },
        pinned: match pinned {
            Some(p) => p,
            None => match existing { Some(e) => e.pinned, None => 0 },
        },
        archived: match archived {
            Some(a) => a,
            None => match existing { Some(e) => e.archived, None => false },
        },
        community: match existing { Some(e) => e.community, None => seq![] },
        is_community: match existing { Some(e) => e.is_community, None => false },
    }
}

fn copy_text(s: &String) -> (r: String)
    ensures
        r@ == s@,
{
    s.clone()
}

impl Store {
    pub fn new() -> (r: Store)
        ensures
            r@.chats == Map::<Seq<char>, ChatView>::empty(),
            r@.messages == Map::<Seq<char>, Seq<MessageView>>::empty(),
            r@.contacts == Map::<Seq<char>, Seq<char>>::empty(),
            r@.push_names == Map::<Seq<char>, Seq<char>>::empty(),
            r@.aliases == Map::<Seq<char>, Seq<char>>::empty(),
            r@.self_jids == Set::<Seq<char>>::empty(),
            r@.starred_ids == Set::<Seq<char>>::empty(),
            r@.saved_contacts == Set::<Seq<char>>::empty(),
            r@.deleted_jids == Set::<Seq<char>>::empty(),
            r@.calls == Seq::<CallView>::empty(),
            r@.statuses == Map::<Seq<char>, Seq<MessageView>>::empty(),
            r@.dirty_jids == Set::<Seq<char>>::empty(),
            r@.hydrated == Set::<Seq<char>>::empty(),
            !r@.calls_dirty,
            !r@.starred_dirty,
            !r@.statuses_dirty,
    {
        let r = Store {
            chats: Table::new(),
            self_jids: KeySet::new(),
            messages: Table::new(),
            contacts: Table::new(),
            push_names: Table::new(),
            aliases: Table::new(),
            starred_ids: KeySet::new(),
            saved_contacts: KeySet::new(),
            deleted_jids: KeySet::new(),
            calls: Vec::new(),
            statuses: Table::new(),
            dirty_jids: KeySet::new(),
            hydrated: KeySet::new(),
            calls_dirty: false,
            starred_dirty: false,
            statuses_dirty: false,
        };
        assert(r@.chats =~= Map::<Seq<char>, ChatView>::empty());
        assert(r@.messages =~= Map::<Seq<char>, Seq<MessageView>>::empty());
        assert(r@.contacts =~= Map::<Seq<char>, Seq<char>>::empty());
        assert(r@.push_names =~= Map::<Seq<char>, Seq<char>>::empty());
        assert(r@.aliases =~= Map::<Seq<char>, Seq<char>>::empty());
        assert(r@.statuses =~= Map::<Seq<char>, Seq<MessageView>>::empty());
        assert(r@.calls =~= Seq::<CallView>::empty());
        r
    }

    /// Resolves a jid through the lid-to-phone alias table.
    pub fn canon(&self, jid: &str) -> (r: String)
        ensures
            r@ == canon_of(self@.aliases, jid@),
    {
        match self.aliases.get(jid) {
            Some(pn) => copy_text(pn),
            None => jid.to_string(),
        }
    }

    pub fn chat_name(&self, jid: &str) -> (r: String)
        ensures
            r@ == chat_name_of(self@, jid@),
    {
        if let Some(contact) = self.contacts.get(jid) {
            return clean_text(contact.as_str());
        }
        if let Some(meta) = self.chats.get(jid) {
            if !meta.name.as_str().is_empty() {
                return clean_text(meta.name.as_str());
            }
        }
        if let Some(push) = self.push_names.get(jid) {
            return clean_text(push.as_str());
        }
        display_id(jid)
    }

    pub fn is_saved(&self, jid: &str) -> (r: bool)
        ensures
            r == is_saved_in(self@, jid@),
    {
        if self.saved_contacts.contains(jid) {
            return true;
        }
        match self.chats.get(jid) {
            Some(c) => !c.name.as_str().is_empty() && str_ends_with(jid, "@s.whatsapp.net"),
            None => false,
        }
    }

    /// Group subjects and contact names found outside the chat events: the
    /// chat's name when there is a chat, else an address-book name.
    pub fn set_name(&mut self, jid: &str, name: &str)
        ensures
            old(self)@.chats.contains_key(jid@) ==> final(self)@ == (StoreView {
                chats: old(self)@.chats.insert(
                    jid@,
                    ChatView { name: name@, ..old(self)@.chats[jid@] },
                ),
                ..old(self)@
            }),
            !old(self)@.chats.contains_key(jid@) ==> final(self)@ == (StoreView {
                contacts: old(self)@.contacts.insert(jid@, name@),
                ..old(self)@
            }),
    {
        match self.chats.remove(jid) {
            Some(mut existing) => {
                existing.name = name.to_string();
                self.chats.insert(jid.to_string(), existing);
                proof {
                    assert(self@.chats =~= old(self)@.chats.insert(
                        jid@,
                        ChatView { name: name@, ..old(self)@.chats[jid@] },
                    ));
                }
            },
            None => {
                self.contacts.insert(jid.to_string(), name.to_string());
                proof {
                    assert(self@.contacts =~= old(self)@.contacts.insert(jid@, name@));
                    assert(self@.chats =~= old(self)@.chats);
                }
            },
        }
    }

    /// An address-book name makes the jid a saved contact; without one, an
    /// announced name is kept. `jid` is already normalized; an empty jid,
    /// or no name at all, changes nothing.
    pub fn upsert_contact(&mut self, jid: &str, name: Option<&str>, notify: Option<&str>)
        ensures
            jid@.len() == 0 ==> final(self)@ == old(self)@,
            jid@.len() != 0 ==> match (name, notify) {
                (Some(n), _) if n@.len() != 0 => final(self)@ == (StoreView {
                    contacts: old(self)@.contacts.insert(jid@, n@),
                    saved_contacts: old(self)@.saved_contacts.insert(jid@),
                    ..old(self)@
                }),
                (_, Some(p)) if p@.len() != 0 => final(self)@ == (StoreView {
                    push_names: old(self)@.push_names.insert(jid@, p@),
                    ..old(self)@
                }),
                _ => final(self)@ == old(self)@,
            },
    {
        if jid.is_empty() {
            return;
        }
        if let Some(n) = name {
            if !n.is_empty() {
                self.contacts.insert(jid.to_string(), n.to_string());
                self.saved_contacts.insert(jid.to_string());
                proof {
                    assert(self@.contacts =~= old(self)@.contacts.insert(jid@, n@));
                }
                return;
            }
        }
        if let Some(p) = notify {
            if !p.is_empty() {
                self.push_names.insert(jid.to_string(), p.to_string());
                proof {
                    assert(self@.push_names =~= old(self)@.push_names.insert(jid@, p@));
                }
                return;
            }
        }
    }

    /// Chat metadata from history sync or a chat update, for a normalized
    /// jid; a jid that gets no chat row is ignored.
    pub fn upsert_chat(
        &mut self,
        jid: &str,
        name: Option<&str>,
        timestamp: i64,
        unread: Option<u32>,
        pinned: Option<i64>,
        archived: Option<bool>,
    )
        ensures
            ({
                let j = canon_of(old(self)@.aliases, jid@);
                let existing = if old(self)@.chats.contains_key(j) {
                    Some(old(self)@.chats[j])
                } else {
                    None
                };
                let n = match name { Some(n) => Some(n@), None => None };
                if displayable(j) {
                    final(self)@ == (StoreView {
                        chats: old(self)@.chats.insert(
                            j,
                            upserted_chat(existing, j, n, timestamp, unread, pinned, archived),
                        ),
                        ..old(self)@
                    })
                } else {
                    final(self)@ == old(self)@
                }
            }),
    {
        let j = self.canon(jid);
        if !is_displayable_jid(j.as_str()) {
            return;
        }
        let existing = self.chats.remove(j.as_str());
        let ghost ex = match &existing { Some(e) => Some(e@), None => None::<ChatView> };
        let meta = match existing {
            Some(e) => {
                let new_name = match name {
                    Some(n) if !n.is_empty() => n.to_string(),
                    _ => e.name,
                };
                ChatMeta {
                    jid: copy_text(&j),
                    name: new_name,
                    preview: e.preview,
                    timestamp: if timestamp >= e.timestamp { timestamp } else { e.timestamp },
                    unread: match unread { Some(u) => u, None => e.unread },
                    mentioned: e.mentioned,
                    pinned: match pinned { Some(p) => p, None => e.pinned },
                    archived: match archived { Some(a) => a, None => e.archived },
                    community: e.community,
                    is_community: e.is_community,
                }
            },
            None => ChatMeta {
                jid: copy_text(&j),
                name: match name {
                    Some(n) if !n.is_empty() => n.to_string(),
                    _ => String::new(),
                },
                preview: String::new(),
                timestamp: if timestamp >= 0 { timestamp } else { 0 },
                unread: match unread { Some(u) => u, None => 0 },
                mentioned: false,
                pinned: match pinned { Some(p) => p, None => 0 },
                archived: match archived { Some(a) => a, None => false },
                community: String::new(),
                is_community: false,
            },
        };
        let ghost n = match name { Some(n) => Some(n@), None => None::<Seq<char>> };
        assert(meta@ == upserted_chat(ex, j@, n, timestamp, unread, pinned, archived));
        self.chats.insert(j, meta);
        proof {
            assert(self@.chats =~= old(self)@.chats.insert(
                j@,
                upserted_chat(ex, j@, n, timestamp, unread, pinned, archived),
            ));
        }
    }

    /// Applies a batch of chats from history sync, in order.
    pub fn upsert_hist_chats(&mut self, chats: &Vec<HistChat>)
        ensures
            final(self)@ == hist_applied(old(self)@, chats@.map_values(|c: HistChat| hist_view(c)), chats@.len() as int),
    {
        let n = chats.len();
        let mut i: usize = 0;
        while i < n
            invariant
                n == chats@.len(),
                i <= n,
                self@ == hist_applied(old(self)@, chats@.map_values(|c: HistChat| hist_view(c)), i as int),
            decreases n - i,
        {
            let c = &chats[i];
            let name = match &c.name {
                Some(s) => Some(s.as_str()),
                None => None,
            };
            self.upsert_chat(c.jid.as_str(), name, c.timestamp, c.unread, c.pinned, c.archived);
            i = i + 1;
        }
    }
}

/// A history chat as plain values.
pub open spec fn hist_view(c: HistChat) -> (Seq<char>, Option<Seq<char>>, i64, Option<u32>, Option<i64>, Option<bool>) {
    (c.jid@, match c.name { Some(s) => Some(s@), None => None }, c.timestamp, c.unread, c.pinned, c.archived)
}

/// One chat update applied to the store's view.
pub open spec fn chat_applied(
    v: StoreView,
    c: (Seq<char>, Option<Seq<char>>, i64, Option<u32>, Option<i64>, Option<bool>),
) -> StoreView {
    let j = canon_of(v.aliases, c.0);
    let existing = if v.chats.contains_key(j) { Some(v.chats[j]) } else { None };
    if displayable(j) {
        StoreView { chats: v.chats.insert(j, upserted_chat(existing, j, c.1, c.2, c.3, c.4, c.5)), ..v }
    } else {
        v
    }
}

/// The first `n` history chats applied in order.
pub open spec fn hist_applied(
    v: StoreView,
    cs: Seq<(Seq<char>, Option<Seq<char>>, i64, Option<u32>, Option<i64>, Option<bool>)>,
    n: int,
) -> StoreView
    decreases n,
{
    if n <= 0 {
        v
    } else {
        chat_applied(hist_applied(v, cs, n - 1), cs[n - 1])
    }
}

// ---------------------------------------------------------------------------
// Time order and merging
// ---------------------------------------------------------------------------

/// `m` placed after every message of `s` that is not later than it: one
/// step of a stable sort by timestamp.
pub open spec fn insert_by_time(s: Seq<MessageView>, m: MessageView) -> Seq<MessageView>
    decreases s.len(),
{
    if s.len() == 0 || s.last().timestamp <= m.timestamp {
        s.push(m)
    } else {
        insert_by_time(s.drop_last(), m).push(s.last())
    }
}

/// The messages stably sorted by timestamp (what `sort_by_key` gives).
pub open spec fn by_time(s: Seq<MessageView>) -> Seq<MessageView>
    decreases s.len(),
{
    if s.len() == 0 {
        s
    } else {
        insert_by_time(by_time(s.drop_last()), s.last())
    }
}

proof fn lemma_insert_by_time_at(s: Seq<MessageView>, m: MessageView, p: int)
    requires
        0 <= p <= s.len(),
        forall|k: int| p <= k < s.len() ==> #[trigger] s[k].timestamp > m.timestamp,
        p == 0 || s[p - 1].timestamp <= m.timestamp,
    ensures
        insert_by_time(s, m) == s.take(p).push(m) + s.skip(p),
    decreases s.len(),
{
    if s.len() == 0 {
        assert(s.take(p).push(m) + s.skip(p) =~= s.push(m));
    } else if s.last().timestamp <= m.timestamp {
        assert(p == s.len());
        assert(s.take(p).push(m) + s.skip(p) =~= s.push(m));
    } else {
        lemma_insert_by_time_at(s.drop_last(), m, p);
        assert(s.drop_last().take(p).push(m) + s.drop_last().skip(p) + seq![s.last()]
            =~= s.take(p).push(m) + s.skip(p));
    }
}

proof fn lemma_list_view_front(s: Seq<StoredMessage>)
    requires
        s.len() > 0,
    ensures
        list_view(s)[0] == s[0]@,
        list_view(s.remove(0)) == list_view(s).skip(1),
{
    assert(list_view(s.remove(0)) =~= list_view(s).skip(1));
}

fn insert_by_time_exec(out: &mut Vec<StoredMessage>, m: StoredMessage)
    ensures
        list_view(final(out)@) == insert_by_time(list_view(old(out)@), m@),
{
    let mut p = out.len();
    while p > 0 && out[p - 1].timestamp > m.timestamp
        invariant
            p <= out@.len(),
            forall|k: int| p <= k < out@.len() ==> #[trigger] out@[k].timestamp > m.timestamp,
        decreases p,
    {
        p = p - 1;
    }
    let ghost before = list_view(out@);
    proof {
        lemma_insert_by_time_at(before, m@, p as int);
    }
    out.insert(p, m);
    assert(list_view(out@) =~= before.take(p as int).push(m@) + before.skip(p as int));
}

/// The messages stably sorted by timestamp.
pub fn sort_by_time(v: Vec<StoredMessage>) -> (r: Vec<StoredMessage>)
    ensures
        list_view(r@) == by_time(list_view(v@)),
{
    let ghost vs = v@;
    let mut out: Vec<StoredMessage> = Vec::new();
    for m in it: v.into_iter()
        invariant
            it.seq() == vs,
            list_view(out@) == by_time(list_view(vs.take(it.index() as int))),
    {
        proof {
            let i = it.index() as int;
            assert(list_view(vs.take(i + 1)).drop_last() =~= list_view(vs.take(i)));
            assert(list_view(vs.take(i + 1)).last() == m@);
        }
        insert_by_time_exec(&mut out, m);
    }
    assert(vs.take(vs.len() as int) =~= vs);
    out
}

/// The ids of a list of messages.
pub open spec fn ids_of(s: Seq<MessageView>) -> Seq<Seq<char>> {
    s.map_values(|m: MessageView| m.id)
}

/// The messages of `src` whose id is not in `ids`, moved to the chat `into`.
pub open spec fn moved(src: Seq<MessageView>, ids: Seq<Seq<char>>, into: Seq<char>) -> Seq<MessageView>
    decreases src.len(),
{
    if src.len() == 0 {
        seq![]
    } else if ids.contains(src.last().id) {
        moved(src.drop_last(), ids, into)
    } else {
        moved(src.drop_last(), ids, into).push(MessageView { jid: into, ..src.last() })
    }
}

/// The metadata of two chats found to be the same contact, `src` folded
/// into `dst` under the jid `into`.
pub open spec fn merged_chat(src: ChatView, dst: Option<ChatView>, into: Seq<char>) -> ChatView {
    let dts: i64 = match dst { Some(d) => d.timestamp, None => 0 };
    let dp: i64 = match dst { Some(d) => d.pinned, None => 0 };
    ChatView {
        jid: into,
        name: match dst {
            Some(d) if d.name.len() != 0 => d.name,
            _ => src.name,
        },
        preview: match dst {
            Some(d) if dts >= src.timestamp => d.preview,
            _ => src.preview,
        },
        timestamp: if src.timestamp >= dts { src.timestamp } else { dts },
        unread: (src.unread + match dst { Some(d) => d.unread, None => 0u32 }) as u32,
        mentioned: src.mentioned || match dst { Some(d) => d.mentioned, None => false },
        pinned: if src.pinned >= dp { src.pinned } else { dp },
        archived: src.archived || match dst { Some(d) => d.archived, None => false },
        community: match dst { Some(d) => d.community, None => src.community },
        is_community: src.is_community || match dst { Some(d) => d.is_community, None => false },
    }
}

/// The unread counts of the two chats fit in a counter when added.
pub open spec fn merge_fits(v: StoreView, from: Seq<char>, into: Seq<char>) -> bool {
    v.chats.contains_key(from) ==> {
        let rest = v.chats.remove(from);
        v.chats[from].unread + (if rest.contains_key(into) { rest[into].unread as int } else { 0 })
            <= u32::MAX
    }
}

/// The store after learning that `from` and `into` are one contact: the
/// chat and the messages of `from` move to `into` (messages already there
/// by id are kept once), `from` is marked for deletion on disk, and its
/// names and saved mark carry over where `into` has none.
pub open spec fn merged_store(v: StoreView, from: Seq<char>, into: Seq<char>) -> StoreView {
    let chats = if v.chats.contains_key(from) {
        let rest = v.chats.remove(from);
        let dst = if rest.contains_key(into) { Some(rest[into]) } else { None };
        rest.insert(into, merged_chat(v.chats[from], dst, into))
    } else {
        v.chats
    };
    let messages = if v.messages.contains_key(from) {
        let rest = v.messages.remove(from);
        let dst = if rest.contains_key(into) { rest[into] } else { seq![] };
        rest.insert(into, by_time(dst + moved(v.messages[from], ids_of(dst), into)))
    } else {
        v.messages
    };
    let dirty = if v.messages.contains_key(from) {
        v.dirty_jids.insert(into).remove(from)
    } else {
        v.dirty_jids
    };
    let contacts = if v.contacts.contains_key(from) && !v.contacts.contains_key(into) {
        v.contacts.insert(into, v.contacts[from])
    } else {
        v.contacts
    };
    let push_names = if v.push_names.contains_key(from) && !v.push_names.contains_key(into) {
        v.push_names.insert(into, v.push_names[from])
    } else {
        v.push_names
    };
    let saved = if v.saved_contacts.contains(from) {
        v.saved_contacts.remove(from).insert(into)
    } else {
        v.saved_contacts
    };
    StoreView {
        chats,
        messages,
        dirty_jids: dirty,
        deleted_jids: v.deleted_jids.insert(from),
        contacts,
        push_names,
        saved_contacts: saved,
        ..v
    }
}

fn max_i64(a: i64, b: i64) -> (r: i64)
    ensures
        r == if a >= b { a } else { b },
{
    if a >= b { a } else { b }
}

fn merge_chat_meta(src: ChatMeta, dst: Option<ChatMeta>, into: &str) -> (r: ChatMeta)
    requires
        src.unread + (match dst { Some(d) => d.unread as int, None => 0 }) <= u32::MAX,
    ensures
        r@ == merged_chat(src@, match dst { Some(d) => Some(d@), None => None }, into@),
{
    match dst {
        Some(d) => {
            let dts = d.timestamp;
            ChatMeta {
                jid: into.to_string(),
                name: if !d.name.as_str().is_empty() { d.name } else { src.name },
                preview: if dts >= src.timestamp { d.preview } else { src.preview },
                timestamp: max_i64(src.timestamp, dts),
                unread: src.unread + d.unread,
                mentioned: src.mentioned || d.mentioned,
                pinned: max_i64(src.pinned, d.pinned),
                archived: src.archived || d.archived,
                community: d.community,
                is_community: src.is_community || d.is_community,
            }
        },
        None => ChatMeta {
            jid: into.to_string(),
            name: src.name,
            preview: src.preview,
            timestamp: max_i64(src.timestamp, 0),
            unread: src.unread,
            mentioned: src.mentioned,
            pinned: max_i64(src.pinned, 0),
            archived: src.archived,
            community: src.community,
            is_community: src.is_community,
        },
    }
}

impl Store {
    /// Learns that `lid` and `pn` are the same contact and merges what the
    /// store holds of the two; false when that alias was already known.
    pub fn learn_alias(&mut self, lid: &str, pn: &str) -> (r: bool)
        requires
            merge_fits(old(self)@, lid@, pn@),
        ensures
            r == !(old(self)@.aliases.contains_key(lid@) && old(self)@.aliases[lid@] == pn@),
            r ==> final(self)@ == merged_store(
                StoreView { aliases: old(self)@.aliases.insert(lid@, pn@), ..old(self)@ },
                lid@,
                pn@,
            ),
            !r ==> final(self)@ == old(self)@,
    {
        if let Some(known) = self.aliases.get(lid) {
            if str_eq(known.as_str(), pn) {
                return false;
            }
        }
        self.aliases.insert(lid.to_string(), pn.to_string());
        proof {
            assert(self@.aliases =~= old(self)@.aliases.insert(lid@, pn@));
        }
        self.merge_jid(lid, pn);
        true
    }

    fn merge_jid(&mut self, from: &str, into: &str)
        requires
            merge_fits(old(self)@, from@, into@),
        ensures
            final(self)@ == merged_store(old(self)@, from@, into@),
    {
        let ghost v = self@;
        let ghost chats1 = if v.chats.contains_key(from@) {
            let rest = v.chats.remove(from@);
            let dst = if rest.contains_key(into@) { Some(rest[into@]) } else { None };
            rest.insert(into@, merged_chat(v.chats[from@], dst, into@))
        } else {
            v.chats
        };
        if let Some(src) = self.chats.remove(from) {
            let dst = self.chats.remove(into);
            let merged = merge_chat_meta(src, dst, into);
            self.chats.insert(into.to_string(), merged);
        }
        assert(self@.chats =~= chats1);
        let ghost chats_done = self@;
        if let Some(src_msgs) = self.messages.remove(from) {
            let mut list = match self.messages.remove(into) {
                Some(l) => l,
                None => Vec::new(),
            };
            let ghost dst = list_view(list@);
            let mut seen = KeySet::new();
            let dn = list.len();
            let mut k: usize = 0;
            while k < dn
                invariant
                    dn == list@.len(),
                    dst == list_view(list@),
                    k <= dn,
                    forall|x: Seq<char>| #[trigger] seen@.contains(x) <==> ids_of(dst.take(k as int)).contains(x),
                decreases dn - k,
            {
                let id = copy_text(&list[k].id);
                seen.insert(id);
                proof {
                    let t0 = ids_of(dst.take(k as int));
                    let t1 = ids_of(dst.take(k + 1));
                    assert(t1 =~= t0.push(dst[k as int].id));
                    assert forall|x: Seq<char>| #[trigger] seen@.contains(x) <==> t1.contains(x) by {
                        if t0.contains(x) {
                            let w = choose|w: int| 0 <= w < t0.len() && t0[w] == x;
                            assert(t1[w] == x);
                        }
                        if t1.contains(x) && x != dst[k as int].id {
                            let w = choose|w: int| 0 <= w < t1.len() && t1[w] == x;
                            assert(t0[w] == x);
                        }
                        assert(t1[k as int] == dst[k as int].id);
                    }
                }
                k = k + 1;
            }
            assert(dst.take(dn as int) =~= dst);
            let ghost src = list_view(src_msgs@);
            let sn = src_msgs.len();
            let mut rest = src_msgs;
            let mut i: usize = 0;
            while i < sn
                invariant
                    sn == src.len(),
                    i <= sn,
                    list_view(rest@) == src.skip(i as int),
                    list_view(list@) == dst + moved(src.take(i as int), ids_of(dst), into@),
                    forall|x: Seq<char>| #[trigger] seen@.contains(x) <==> ids_of(dst).contains(x),
                decreases sn - i,
            {
                assert(list_view(rest@).len() == sn - i);
                let ghost rb = rest@;
                let mut m = rest.remove(0);
                proof {
                    lemma_list_view_front(rb);
                    assert(src.skip(i as int)[0] == src[i as int]);
                    assert(src.skip(i as int).skip(1) =~= src.skip(i + 1));
                }
                assert(src.take(i + 1).drop_last() =~= src.take(i as int));
                assert(src.take(i + 1).last() == src[i as int]);
                if !seen.contains(m.id.as_str()) {
                    let ghost before_m = m@;
                    let ghost lb = list@;
                    m.jid = into.to_string();
                    assert(m@ == MessageView { jid: into@, ..before_m });
                    assert(!ids_of(dst).contains(src[i as int].id));
                    assert(moved(src.take(i + 1), ids_of(dst), into@) == moved(src.take(i as int), ids_of(dst), into@).push(
                        MessageView { jid: into@, ..src[i as int] },
                    ));
                    list.push(m);
                    assert(list_view(list@) =~= list_view(lb).push(m@));
                    assert(list_view(list@) =~= dst + moved(src.take(i + 1), ids_of(dst), into@));
                } else {
                    assert(list_view(list@) =~= dst + moved(src.take(i + 1), ids_of(dst), into@));
                }
                i = i + 1;
            }
            assert(src.take(sn as int) =~= src);
            let sorted = sort_by_time(list);
            self.messages.insert(into.to_string(), sorted);
            self.dirty_jids.insert(into.to_string());
            self.dirty_jids.remove(from);
            proof {
                let rest_m = v.messages.remove(from@);
                let dstv = if rest_m.contains_key(into@) { rest_m[into@] } else { seq![] };
                assert(dstv == dst);
                assert(self@.messages =~= rest_m.insert(into@, by_time(dst + moved(src, ids_of(dst), into@))));
            }
        }
        self.deleted_jids.insert(from.to_string());
        if let Some(name) = self.contacts.get(from) {
            if !self.contacts.contains_key(into) {
                let name = copy_text(name);
                self.contacts.insert(into.to_string(), name);
                proof {
                    assert(self@.contacts =~= v.contacts.insert(into@, v.contacts[from@]));
                }
            }
        }
        if let Some(push) = self.push_names.get(from) {
            if !self.push_names.contains_key(into) {
                let push = copy_text(push);
                self.push_names.insert(into.to_string(), push);
                proof {
                    assert(self@.push_names =~= v.push_names.insert(into@, v.push_names[from@]));
                }
            }
        }
        if self.saved_contacts.remove(from) {
            self.saved_contacts.insert(into.to_string());
        }
        proof {
            assert(self@.messages =~= merged_store(v, from@, into@).messages);
            assert(self@.contacts =~= merged_store(v, from@, into@).contacts);
            assert(self@.push_names =~= merged_store(v, from@, into@).push_names);
            assert(self@.saved_contacts =~= merged_store(v, from@, into@).saved_contacts);
            assert(self@.dirty_jids =~= merged_store(v, from@, into@).dirty_jids);
        }
    }
}

// ---------------------------------------------------------------------------
// Previews and named mentions
// ---------------------------------------------------------------------------

/// At most the first `n` characters of `s`.
pub open spec fn first_chars(s: Seq<char>, n: nat) -> Seq<char> {
    if s.len() > n {
        s.take(n as int)
    } else {
        s
    }
}

/// What a message looks like in the chat list, without the sender prefix:
/// a label for media, the document's name, or the text with its runs of
/// white space made single spaces, cut to 80 characters.
pub open spec fn preview_body_of(m: MessageView, locale: Locale) -> Seq<char> {
    match m.kind {
        MessageKind::Image => translated(locale, "preview.photo"@, seq![]),
        MessageKind::Audio => translated(locale, "preview.audio"@, seq![]),
        MessageKind::Video => if m.gif {
            translated(locale, "preview.gif"@, seq![])
        } else {
            translated(locale, "preview.video"@, seq![])
        },
        MessageKind::Doc => translated(locale, "preview.document"@, seq![m.text]),
        MessageKind::Text => first_chars(joined(space_words(m.text, 0)), 80),
    }
}

fn join_words(ws: &Vec<Vec<char>>) -> (r: Vec<char>)
    ensures
        r@ == joined(ws@.map_values(|w: Vec<char>| w@)),
{
    let ghost all = ws@.map_values(|w: Vec<char>| w@);
    let n = ws.len();
    let mut out: Vec<char> = Vec::new();
    let mut i: usize = n;
    while i > 0
        invariant
            n == all.len(),
            n == ws@.len(),
            all == ws@.map_values(|w: Vec<char>| w@),
            i <= n,
            out@ == joined(all.skip(i as int)),
        decreases i,
    {
        i = i - 1;
        assert(all[i as int] == ws@[i as int]@);
        let mut piece: Vec<char> = Vec::new();
        crate::text::push_all(&mut piece, &ws[i]);
        if i + 1 < n {
            piece.push(' ');
        }
        crate::text::push_all(&mut piece, &out);
        proof {
            let tail = all.skip(i as int);
            assert(tail[0] == all[i as int]);
            assert(tail.drop_first() =~= all.skip(i + 1));
            if i + 1 == n {
                assert(tail.len() == 1);
                assert(all.skip(i + 1).len() == 0);
                assert(piece@ =~= joined(tail));
            } else {
                assert(piece@ =~= joined(tail));
            }
        }
        out = piece;
    }
    assert(all.skip(0) =~= all);
    out
}

pub fn preview_body(m: &StoredMessage, locale: Locale) -> (r: String)
    ensures
        r@ == preview_body_of(m@, locale),
{
    match m.kind {
        MessageKind::Image => t(locale, "preview.photo"),
        MessageKind::Audio => t(locale, "preview.audio"),
        MessageKind::Video => if m.gif {
            t(locale, "preview.gif")
        } else {
            t(locale, "preview.video")
        },
        MessageKind::Doc => {
            let args = [m.text.as_str()];
            let r = ta(locale, "preview.document", &args);
            assert(args@.map_values(|a: &str| a@) =~= seq![m.text@]);
            r
        },
        MessageKind::Text => {
            let v = chars_of(m.text.as_str());
            let ws = space_words_exec(&v);
            let all = join_words(&ws);
            let mut out: Vec<char> = Vec::new();
            let k = if all.len() > 80 { 80 } else { all.len() };
            push_range(&mut out, &all, 0, k);
            assert(out@ =~= first_chars(all@, 80));
            string_of(&out)
        },
    }
}

/// Where the run of ASCII digits starting at `from` ends.
pub open spec fn digits_end(s: Seq<char>, from: int) -> int
    decreases s.len() - from,
{
    if 0 <= from < s.len() && '0' <= s[from] <= '9' {
        digits_end(s, from + 1)
    } else {
        from
    }
}

pub proof fn lemma_digits_end(s: Seq<char>, from: int)
    requires
        0 <= from <= s.len(),
    ensures
        from <= digits_end(s, from) <= s.len(),
        forall|k: int| from <= k < digits_end(s, from) ==> '0' <= #[trigger] s[k] <= '9',
    decreases s.len() - from,
{
    if from < s.len() && '0' <= s[from] <= '9' {
        lemma_digits_end(s, from + 1);
    }
}

/// The name the store knows for a jid: address book, chat, announced.
pub open spec fn name_for(v: StoreView, jid: Seq<char>) -> Option<Seq<char>> {
    if v.contacts.contains_key(jid) {
        Some(v.contacts[jid])
    } else if v.chats.contains_key(jid) && v.chats[jid].name.len() != 0 {
        Some(v.chats[jid].name)
    } else if v.push_names.contains_key(jid) {
        Some(v.push_names[jid])
    } else {
        None
    }
}

/// The name behind "@digits": the phone jid's, else the lid's, each
/// resolved through the alias table.
pub open spec fn mention_name(v: StoreView, num: Seq<char>) -> Option<Seq<char>> {
    match name_for(v, canon_of(v.aliases, num + "@s.whatsapp.net"@)) {
        Some(n) => Some(n),
        None => name_for(v, canon_of(v.aliases, num + "@lid"@)),
    }
}

/// The text from `i` on with every "@" followed by 5 to 20 digits of a
/// known person turned into "@Name".
pub open spec fn named_from(v: StoreView, s: Seq<char>, i: int) -> Seq<char>
    decreases s.len() - i,
{
    if i < 0 || i >= s.len() {
        seq![]
    } else if s[i] == '@' && 5 <= digits_end(s, i + 1) - (i + 1) <= 20 {
        let e = digits_end(s, i + 1);
        proof {
            lemma_digits_end(s, i + 1);
        }
        match mention_name(v, s.subrange(i + 1, e)) {
            Some(n) => seq!['@'] + without_selectors(n) + named_from(v, s, e),
            None => s.subrange(i, e) + named_from(v, s, e),
        }
    } else {
        seq![s[i]] + named_from(v, s, i + 1)
    }
}

/// The start of `s` up to its first space.
pub open spec fn first_word(s: Seq<char>) -> Seq<char> {
    s.take(find_char(s, ' ', 0))
}

/// A message's line in the chat list: "✓ " for our own, the sender's first
/// name in a group, then the body with mentions named.
#[verifier::opaque]
pub open spec fn preview_of(v: StoreView, m: MessageView, locale: Locale) -> Seq<char> {
    let body = named_from(v, preview_body_of(m, locale), 0);
    let prefix = if m.from_me {
        seq!['\u{2713}', ' ']
    } else if ends_with(m.jid, "@g.us"@) && m.sender.len() != 0 {
        first_word(without_selectors(m.sender)) + seq![':', ' ']
    } else {
        seq![]
    };
    prefix + body
}

fn jid_form(num: &Vec<char>, server: &str) -> (r: String)
    ensures
        r@ == num@ + server@,
{
    let mut v: Vec<char> = Vec::new();
    crate::text::push_all(&mut v, num);
    let sv = chars_of(server);
    crate::text::push_all(&mut v, &sv);
    string_of(&v)
}

impl Store {
    pub(crate) fn name_for_jid(&self, jid: &str) -> (r: Option<String>)
        ensures
            match r {
                Some(n) => name_for(self@, jid@) == Some(n@),
                None => name_for(self@, jid@) is None,
            },
    {
        if let Some(c) = self.contacts.get(jid) {
            return Some(copy_text(c));
        }
        if let Some(meta) = self.chats.get(jid) {
            if !meta.name.as_str().is_empty() {
                return Some(copy_text(&meta.name));
            }
        }
        if let Some(p) = self.push_names.get(jid) {
            return Some(copy_text(p));
        }
        None
    }

    fn mention_name_of(&self, num: &Vec<char>) -> (r: Option<String>)
        ensures
            match r {
                Some(n) => mention_name(self@, num@) == Some(n@),
                None => mention_name(self@, num@) is None,
            },
    {
        let pn = jid_form(num, "@s.whatsapp.net");
        let j1 = self.canon(pn.as_str());
        match self.name_for_jid(j1.as_str()) {
            Some(n) => Some(n),
            None => {
                let lid = jid_form(num, "@lid");
                let j2 = self.canon(lid.as_str());
                self.name_for_jid(j2.as_str())
            },
        }
    }

    /// Turns "@5511999999999" into "@Name" wherever the store knows who it
    /// is, so previews and notifications read like the conversation does.
    pub fn named_mentions(&self, text: &str) -> (r: String)
        ensures
            r@ == named_from(self@, text@, 0),
    {
        let s = chars_of(text);
        let n = s.len();
        let mut out: Vec<char> = Vec::new();
        let mut i: usize = 0;
        while i < n
            invariant
                n == s@.len(),
                s@ == text@,
                i <= n,
                out@ + named_from(self@, s@, i as int) == named_from(self@, s@, 0),
            decreases n - i,
        {
            if s[i] == '@' {
                let mut e = i + 1;
                while e < n && '0' <= s[e] && s[e] <= '9'
                    invariant
                        n == s@.len(),
                        i + 1 <= e <= n,
                        digits_end(s@, i + 1) == digits_end(s@, e as int),
                    decreases n - e,
                {
                    e = e + 1;
                }
                proof {
                    lemma_digits_end(s@, i + 1);
                }
                let len = e - (i + 1);
                if 5 <= len && len <= 20 {
                    let mut num: Vec<char> = Vec::new();
                    push_range(&mut num, &s, i + 1, e);
                    let ghost rest = named_from(self@, s@, e as int);
                    match self.mention_name_of(&num) {
                        Some(name) => {
                            out.push('@');
                            let cleaned = clean_text(name.as_str());
                            let cv = chars_of(cleaned.as_str());
                            crate::text::push_all(&mut out, &cv);
                        },
                        None => {
                            push_range(&mut out, &s, i, e);
                        },
                    }
                    proof {
                        assert(named_from(self@, s@, i as int) == match mention_name(self@, s@.subrange(i + 1, e as int)) {
                            Some(nm) => seq!['@'] + without_selectors(nm) + rest,
                            None => s@.subrange(i as int, e as int) + rest,
                        });
                    }
                    i = e;
                    continue;
                }
            }
            out.push(s[i]);
            i = i + 1;
        }
        string_of(&out)
    }
}

/// A message's line in the chat list, with the names the store knows.
pub fn compute_preview(stored: &StoredMessage, store: &Store, locale: Locale) -> (r: String)
    ensures
        r@ == preview_of(store@, stored@, locale),
{
    let body = store.named_mentions(preview_body(stored, locale).as_str());
    let mut out: Vec<char> = Vec::new();
    if stored.from_me {
        out.push('\u{2713}');
        out.push(' ');
    } else if is_group(stored.jid.as_str()) && !stored.sender.as_str().is_empty() {
        let cleaned = clean_text(stored.sender.as_str());
        let cv = chars_of(cleaned.as_str());
        let k = find_char_of(&cv, ' ', 0);
        proof {
            lemma_find_char(cv@, ' ', 0);
        }
        push_range(&mut out, &cv, 0, k);
        out.push(':');
        out.push(' ');
        assert(cv@.subrange(0, k as int) =~= first_word(cleaned@));
    }
    let bv = chars_of(body.as_str());
    crate::text::push_all(&mut out, &bv);
    reveal(preview_of);
    assert(out@ =~= preview_of(store@, stored@, locale));
    string_of(&out)
}

// ---------------------------------------------------------------------------
// Adding messages
// ---------------------------------------------------------------------------

/// How many messages a chat keeps in memory.
pub const MEMORY_MESSAGES: usize = 500;

/// How many messages of a chat are written to the vault.
pub const DISK_MESSAGES: usize = 300;

/// The newest `DISK_MESSAGES` of a chat's list, in order: what the vault
/// keeps of it.
pub fn disk_tail(list: &Vec<StoredMessage>) -> (r: Vec<&StoredMessage>)
    ensures
        r@.map_values(|m: &StoredMessage| m@) == (if list@.len() > DISK_MESSAGES {
            list@.skip(list@.len() - DISK_MESSAGES)
        } else {
            list@
        }).map_values(|m: StoredMessage| m@),
{
    let n = list.len();
    let from = if n > DISK_MESSAGES {
        n - DISK_MESSAGES
    } else {
        0
    };
    let ghost want = list@.skip(from as int).map_values(|m: StoredMessage| m@);
    let mut out: Vec<&StoredMessage> = Vec::new();
    let mut i: usize = from;
    while i < n
        invariant
            n == list@.len(),
            from <= i <= n,
            want == list@.skip(from as int).map_values(|m: StoredMessage| m@),
            out@.map_values(|m: &StoredMessage| m@) =~= want.take(i - from),
        decreases n - i,
    {
        let ghost prev = out@;
        out.push(&list[i]);
        assert(out@ =~= prev.push(&list@[i as int]));
        assert(want.take(i + 1 - from) =~= want.take(i - from).push(list@[i as int]@));
        i = i + 1;
    }
    assert(want.take(n - from) =~= want);
    assert(list@.skip(0) =~= list@);
    out
}

/// The newest `MEMORY_MESSAGES` of a list.
pub open spec fn capped(s: Seq<MessageView>) -> Seq<MessageView> {
    if s.len() > MEMORY_MESSAGES {
        s.skip(s.len() - MEMORY_MESSAGES)
    } else {
        s
    }
}

/// The first index from `from` on whose message has timestamp `ts`, or -1.
pub open spec fn time_index(s: Seq<MessageView>, ts: i64, from: int) -> int
    decreases s.len() - from,
{
    if from < 0 || from >= s.len() {
        -1
    } else if s[from].timestamp == ts {
        from
    } else {
        time_index(s, ts, from + 1)
    }
}

proof fn lemma_time_index(s: Seq<MessageView>, ts: i64, from: int)
    requires
        0 <= from,
    ensures
        time_index(s, ts, from) == -1 || (from <= time_index(s, ts, from) < s.len()
            && s[time_index(s, ts, from)].timestamp == ts),
        time_index(s, ts, from) == -1 ==> forall|k: int| from <= k < s.len() ==> #[trigger] s[k].timestamp != ts,
    decreases s.len() - from,
{
    if from < s.len() && s[from].timestamp != ts {
        lemma_time_index(s, ts, from + 1);
    }
}

/// The chat row after a message newer than it (or the first one) arrives.
pub open spec fn added_chat(existing: Option<ChatView>, jid: Seq<char>, preview: Seq<char>, ts: i64) -> ChatView {
    let old_ts: i64 = match existing { Some(e) => e.timestamp, None => 0 };
    ChatView {
        jid,
        name: match existing { Some(e) => e.name, None => seq![] },
        preview,
        timestamp: if ts >= old_ts { ts } else { old_ts },
        unread: match existing { Some(e) => e.unread, None => 0 },
        mentioned: match existing { Some(e) => e.mentioned, None => false },
        pinned: match existing { Some(e) => e.pinned, None => 0 },
        archived: match existing { Some(e) => e.archived, None => false },
        community: match existing { Some(e) => e.community, None => seq![] },
        is_community: match existing { Some(e) => e.is_community, None => false },
    }
}

/// The messages of a chat, none when it has no list.
pub open spec fn list_of(v: StoreView, jid: Seq<char>) -> Seq<MessageView> {
    if v.messages.contains_key(jid) {
        v.messages[jid]
    } else {
        seq![]
    }
}

/// The store after a message that is new to its chat arrives: it joins
/// the list in time order (starred if its star came first), the list keeps
/// its newest messages, the chat row shows it unless the row is newer, and
/// in a direct chat the announced name of the first message at that time
/// is learned.
pub open spec fn added_store(v: StoreView, m0: MessageView, locale: Locale) -> StoreView {
    let j = m0.jid;
    let m = MessageView { starred: m0.starred || v.starred_ids.contains(m0.id), ..m0 };
    let new_list = capped(by_time(list_of(v, j).push(m)));
    let existing = if v.chats.contains_key(j) { Some(v.chats[j]) } else { None };
    let chats = if !v.chats.contains_key(j) || m0.timestamp >= v.chats[j].timestamp {
        v.chats.insert(j, added_chat(existing, j, preview_of(v, m0, locale), m0.timestamp))
    } else {
        v.chats
    };
    let k = time_index(new_list, m0.timestamp, 0);
    let push_names = if k >= 0 && !new_list[k].from_me && new_list[k].sender.len() != 0 && (ends_with(
        j,
        "@s.whatsapp.net"@,
    ) || ends_with(j, "@lid"@)) {
        v.push_names.insert(j, new_list[k].sender)
    } else {
        v.push_names
    };
    StoreView {
        messages: v.messages.insert(j, new_list),
        dirty_jids: v.dirty_jids.insert(j),
        chats,
        push_names,
        ..v
    }
}

/// Whether a list holds a message with this id.
fn has_id(list: &Vec<StoredMessage>, id: &str) -> (r: bool)
    ensures
        r == ids_of(list_view(list@)).contains(id@),
{
    let n = list.len();
    let mut k: usize = 0;
    while k < n
        invariant
            n == list@.len(),
            k <= n,
            forall|j: int| 0 <= j < k ==> #[trigger] list@[j].id@ != id@,
        decreases n - k,
    {
        if str_eq(list[k].id.as_str(), id) {
            assert(ids_of(list_view(list@))[k as int] == id@);
            return true;
        }
        k = k + 1;
    }
    assert(!ids_of(list_view(list@)).contains(id@)) by {
        if ids_of(list_view(list@)).contains(id@) {
            let j = choose|j: int| 0 <= j < n && ids_of(list_view(list@))[j] == id@;
            assert(list@[j].id@ == id@);
        }
    }
    false
}

fn chat_after_add(existing: Option<ChatMeta>, jid: &String, preview: String, ts: i64) -> (r: ChatMeta)
    ensures
        r@ == added_chat(match existing { Some(e) => Some(e@), None => None }, jid@, preview@, ts),
{
    match existing {
        Some(e) => ChatMeta {
            jid: copy_text(jid),
            name: e.name,
            preview,
            timestamp: max_i64(ts, e.timestamp),
            unread: e.unread,
            mentioned: e.mentioned,
            pinned: e.pinned,
            archived: e.archived,
            community: e.community,
            is_community: e.is_community,
        },
        None => ChatMeta {
            jid: copy_text(jid),
            name: String::new(),
            preview,
            timestamp: max_i64(ts, 0),
            unread: 0,
            mentioned: false,
            pinned: 0,
            archived: false,
            community: String::new(),
            is_community: false,
        },
    }
}

/// The list with `m` in time order, cut to its newest messages.
fn kept_with(list: Vec<StoredMessage>, m: StoredMessage) -> (r: Vec<StoredMessage>)
    ensures
        list_view(r@) == capped(by_time(list_view(list@).push(m@))),
{
    let ghost lb = list@;
    let ghost mv = m@;
    let mut list = list;
    list.push(m);
    assert(list_view(list@) =~= list_view(lb).push(mv));
    let mut list = sort_by_time(list);
    if list.len() > MEMORY_MESSAGES {
        let excess = list.len() - MEMORY_MESSAGES;
        let ghost before = list@;
        list = list.split_off(excess);
        assert(list_view(list@) =~= list_view(before).skip(excess as int));
    }
    list
}

/// The first message of the list at time `ts`.
fn first_at(list: &Vec<StoredMessage>, ts: i64) -> (r: Option<usize>)
    ensures
        match r {
            Some(k) => k as int == time_index(list_view(list@), ts, 0) && k < list@.len(),
            None => time_index(list_view(list@), ts, 0) == -1,
        },
{
    let n = list.len();
    let mut k: usize = 0;
    while k < n && list[k].timestamp != ts
        invariant
            n == list@.len(),
            k <= n,
            time_index(list_view(list@), ts, 0) == time_index(list_view(list@), ts, k as int),
        decreases n - k,
    {
        k = k + 1;
    }
    proof {
        lemma_time_index(list_view(list@), ts, 0);
    }
    if k < n {
        Some(k)
    } else {
        None
    }
}

/// The announced name a direct chat learns from the kept list: the sender
/// of its first message at time `ts`, when someone else sent it.
pub open spec fn learned_name(list: Seq<MessageView>, ts: i64, jid: Seq<char>) -> Option<Seq<char>> {
    let k = time_index(list, ts, 0);
    if k >= 0 && !list[k].from_me && list[k].sender.len() != 0 && (ends_with(jid, "@s.whatsapp.net"@)
        || ends_with(jid, "@lid"@)) {
        Some(list[k].sender)
    } else {
        None
    }
}

fn learned_name_of(list: &Vec<StoredMessage>, ts: i64, jid: &String) -> (r: Option<String>)
    ensures
        match r {
            Some(n) => learned_name(list_view(list@), ts, jid@) == Some(n@),
            None => learned_name(list_view(list@), ts, jid@) is None,
        },
{
    match first_at(list, ts) {
        Some(k) => {
            if !list[k].from_me && !list[k].sender.as_str().is_empty() && (str_ends_with(
                jid.as_str(),
                "@s.whatsapp.net",
            ) || str_ends_with(jid.as_str(), "@lid")) {
                Some(copy_text(&list[k].sender))
            } else {
                None
            }
        },
        None => None,
    }
}

proof fn lemma_added_store(v: StoreView, m0: MessageView, locale: Locale, w: StoreView)
    requires
        ({
            let j = m0.jid;
            let m = MessageView { starred: m0.starred || v.starred_ids.contains(m0.id), ..m0 };
            let new_list = capped(by_time(list_of(v, j).push(m)));
            let existing = if v.chats.contains_key(j) { Some(v.chats[j]) } else { None };
            &&& w.messages == v.messages.insert(j, new_list)
            &&& w.dirty_jids == v.dirty_jids.insert(j)
            &&& w.chats == if !v.chats.contains_key(j) || m0.timestamp >= v.chats[j].timestamp {
                v.chats.insert(j, added_chat(existing, j, preview_of(v, m0, locale), m0.timestamp))
            } else {
                v.chats
            }
            &&& w.push_names == match learned_name(new_list, m0.timestamp, j) {
                Some(n) => v.push_names.insert(j, n),
                None => v.push_names,
            }
            &&& w == StoreView { messages: w.messages, dirty_jids: w.dirty_jids, chats: w.chats, push_names: w.push_names, ..v }
        }),
    ensures
        w == added_store(v, m0, locale),
{
}

impl Store {
    fn holds_message(&self, jid: &str, id: &str) -> (r: bool)
        ensures
            r == ids_of(list_of(self@, jid@)).contains(id@),
    {
        match self.messages.get(jid) {
            Some(l) => has_id(l, id),
            None => {
                assert(ids_of(list_of(self@, jid@)) =~= Seq::<Seq<char>>::empty());
                false
            },
        }
    }

    /// Adds a message to its chat; false when the chat already holds a
    /// message with its id (then nothing changes).
    pub fn add_message(&mut self, stored: StoredMessage, locale: Locale) -> (r: bool)
        ensures
            r == !ids_of(list_of(old(self)@, stored@.jid)).contains(stored@.id),
            r ==> final(self)@ == added_store(old(self)@, stored@, locale),
            !r ==> final(self)@ == old(self)@,
    {
        if self.holds_message(stored.jid.as_str(), stored.id.as_str()) {
            return false;
        }
        self.add_new_message(stored, locale);
        true
    }

    fn take_list(&mut self, jid: &str) -> (r: Vec<StoredMessage>)
        ensures
            list_view(r@) == list_of(old(self)@, jid@),
            final(self)@ == (StoreView { messages: old(self)@.messages.remove(jid@), ..old(self)@ }),
    {
        let r = match self.messages.remove(jid) {
            Some(l) => l,
            None => Vec::new(),
        };
        proof {
            assert(self@.messages =~= old(self)@.messages.remove(jid@));
            if !old(self)@.messages.contains_key(jid@) {
                assert(list_view(r@) =~= Seq::<MessageView>::empty());
            }
        }
        r
    }

    fn put_list(&mut self, jid: String, list: Vec<StoredMessage>)
        ensures
            final(self)@ == (StoreView {
                messages: old(self)@.messages.insert(jid@, list_view(list@)),
                dirty_jids: old(self)@.dirty_jids.insert(jid@),
                ..old(self)@
            }),
    {
        self.dirty_jids.insert(copy_text(&jid));
        let ghost lv = list_view(list@);
        let ghost j = jid@;
        self.messages.insert(jid, list);
        proof {
            assert(self@.messages =~= old(self)@.messages.insert(j, lv));
        }
    }

    fn learn_push_name(&mut self, jid: &String, name: Option<String>)
        ensures
            final(self)@ == (StoreView {
                push_names: match name {
                    Some(n) => old(self)@.push_names.insert(jid@, n@),
                    None => old(self)@.push_names,
                },
                ..old(self)@
            }),
    {
        if let Some(n) = name {
            let ghost nv = n@;
            self.push_names.insert(copy_text(jid), n);
            proof {
                assert(self@.push_names =~= old(self)@.push_names.insert(jid@, nv));
            }
        }
    }

    fn show_in_chat(&mut self, jid: &String, preview: String, ts: i64)
        ensures
            final(self)@ == (StoreView {
                chats: old(self)@.chats.insert(
                    jid@,
                    added_chat(
                        if old(self)@.chats.contains_key(jid@) { Some(old(self)@.chats[jid@]) } else { None },
                        jid@,
                        preview@,
                        ts,
                    ),
                ),
                ..old(self)@
            }),
    {
        let existing = self.chats.remove(jid.as_str());
        let meta = chat_after_add(existing, jid, preview, ts);
        let ghost mv = meta@;
        self.chats.insert(copy_text(jid), meta);
        proof {
            assert(self@.chats =~= old(self)@.chats.insert(jid@, mv));
        }
    }

    fn add_new_message(&mut self, stored: StoredMessage, locale: Locale)
        ensures
            final(self)@ == added_store(old(self)@, stored@, locale),
    {
        let ghost v = self@;
        let ghost m0 = stored@;
        let jid = copy_text(&stored.jid);
        let timestamp = stored.timestamp;
        let update_chat = match self.chats.get(jid.as_str()) {
            Some(e) => timestamp >= e.timestamp,
            None => true,
        };
        if update_chat {
            let preview = compute_preview(&stored, self, locale);
            self.show_in_chat(&jid, preview, timestamp);
        }
        let ghost v1 = self@;
        let mut stored = stored;
        if self.starred_ids.contains(stored.id.as_str()) {
            stored.starred = true;
        }
        let ghost m = stored@;
        assert(m == MessageView { starred: m0.starred || v.starred_ids.contains(m0.id), ..m0 });
        let list = self.take_list(jid.as_str());
        let list = kept_with(list, stored);
        let learned = learned_name_of(&list, timestamp, &jid);
        self.learn_push_name(&jid, learned);
        self.put_list(jid, list);
        proof {
            let j = m0.jid;
            let new_list = capped(by_time(list_of(v, j).push(m)));
            assert(list_of(v1, j) == list_of(v, j));
            assert(self@.messages =~= v.messages.insert(j, new_list));
            lemma_added_store(v, m0, locale, self@);
        }
    }
}

// ---------------------------------------------------------------------------
// Changing one message
// ---------------------------------------------------------------------------

/// The first index from `from` on whose message has id `id`, or -1.
pub open spec fn id_index(s: Seq<MessageView>, id: Seq<char>, from: int) -> int
    decreases s.len() - from,
{
    if from < 0 || from >= s.len() {
        -1
    } else if s[from].id == id {
        from
    } else {
        id_index(s, id, from + 1)
    }
}

proof fn lemma_id_index(s: Seq<MessageView>, id: Seq<char>, from: int)
    requires
        0 <= from,
    ensures
        id_index(s, id, from) == -1 || (from <= id_index(s, id, from) < s.len()
            && s[id_index(s, id, from)].id == id),
    decreases s.len() - from,
{
    if from < s.len() && s[from].id != id {
        lemma_id_index(s, id, from + 1);
    }
}

fn find_id(list: &Vec<StoredMessage>, id: &str) -> (r: Option<usize>)
    ensures
        match r {
            Some(k) => k as int == id_index(list_view(list@), id@, 0) && k < list@.len(),
            None => id_index(list_view(list@), id@, 0) == -1,
        },
{
    let n = list.len();
    let mut k: usize = 0;
    while k < n
        invariant
            n == list@.len(),
            k <= n,
            id_index(list_view(list@), id@, 0) == id_index(list_view(list@), id@, k as int),
        decreases n - k,
    {
        if str_eq(list[k].id.as_str(), id) {
            proof {
                lemma_id_index(list_view(list@), id@, 0);
            }
            return Some(k);
        }
        k = k + 1;
    }
    None
}

/// Where the message `id` of chat `jid` sits, or -1.
pub open spec fn message_index(v: StoreView, jid: Seq<char>, id: Seq<char>) -> int {
    id_index(list_of(v, jid), id, 0)
}

/// The store with message `k` of chat `jid` replaced by `m`, the chat
/// marked for saving.
pub open spec fn with_message(v: StoreView, jid: Seq<char>, k: int, m: MessageView) -> StoreView {
    StoreView {
        messages: v.messages.insert(jid, list_of(v, jid).update(k, m)),
        dirty_jids: v.dirty_jids.insert(jid),
        ..v
    }
}

impl Store {
    fn restore_list(&mut self, jid: &str, list: Vec<StoredMessage>)
        ensures
            final(self)@ == (StoreView { messages: old(self)@.messages.insert(jid@, list_view(list@)), ..old(self)@ }),
    {
        let ghost lv = list_view(list@);
        self.messages.insert(jid.to_string(), list);
        proof {
            assert(self@.messages =~= old(self)@.messages.insert(jid@, lv));
        }
    }

    /// Puts a changed message back at `k` in a chat's list and the list back
    /// in the store, marked for saving.
    fn put_message(&mut self, jid: &str, list: Vec<StoredMessage>, k: usize, m: StoredMessage)
        requires
            k <= list@.len(),
        ensures
            final(self)@ == (StoreView {
                messages: old(self)@.messages.insert(jid@, list_view(list@).insert(k as int, m@)),
                dirty_jids: old(self)@.dirty_jids.insert(jid@),
                ..old(self)@
            }),
    {
        let ghost lb = list_view(list@);
        let ghost mv = m@;
        let mut list = list;
        list.insert(k, m);
        assert(list_view(list@) =~= lb.insert(k as int, mv));
        self.put_list(jid.to_string(), list);
    }

    /// Stars or unstars a message (the star is remembered by id even when
    /// the message is not here yet); true when a stored message changed.
    pub fn set_starred(&mut self, jid: &str, id: &str, starred: bool) -> (r: bool)
        ensures
            ({
                let v1 = StoreView {
                    starred_ids: if starred {
                        old(self)@.starred_ids.insert(id@)
                    } else {
                        old(self)@.starred_ids.remove(id@)
                    },
                    starred_dirty: true,
                    ..old(self)@
                };
                let k = message_index(old(self)@, jid@, id@);
                let m = list_of(old(self)@, jid@)[k];
                &&& r == (k >= 0 && m.starred != starred)
                &&& r ==> final(self)@ == with_message(v1, jid@, k, MessageView { starred, ..m })
                &&& !r ==> final(self)@ == v1
            }),
    {
        if starred {
            self.starred_ids.insert(id.to_string());
        } else {
            self.starred_ids.remove(id);
        }
        self.starred_dirty = true;
        if !self.messages.contains_key(jid) {
            return false;
        }
        let ghost v1 = self@;
        let list = self.take_list(jid);
        match find_id(&list, id) {
            None => {
                self.restore_list(jid, list);
                assert(self@.messages =~= v1.messages);
                false
            },
            Some(k) => {
                if list[k].starred == starred {
                    self.restore_list(jid, list);
                    assert(self@.messages =~= v1.messages);
                    return false;
                }
                let ghost lv = list_view(list@);
                let mut list = list;
                let mut m = list.remove(k);
                let ghost before = m@;
                m.starred = starred;
                assert(list_view(list@) =~= lv.remove(k as int));
                assert(lv.remove(k as int).insert(k as int, m@) =~= lv.update(k as int, m@));
                self.put_message(jid, list, k, m);
                assert(self@.messages =~= with_message(v1, jid@, k as int, MessageView { starred, ..before }).messages);
                true
            },
        }
    }
}

impl Store {
    /// Takes message `id` of chat `jid` out of the store to change it: the
    /// chat's list without it, where it was, and the message.
    fn open_message(&mut self, jid: &str, id: &str) -> (r: Option<(Vec<StoredMessage>, usize, StoredMessage)>)
        ensures
            ({
                let lv = list_of(old(self)@, jid@);
                let k = message_index(old(self)@, jid@, id@);
                match r {
                    Some((list, i, m)) => {
                        &&& k == i as int
                        &&& 0 <= k < lv.len()
                        &&& m@ == lv[k]
                        &&& list_view(list@) == lv.remove(k)
                        &&& old(self)@.messages.contains_key(jid@)
                        &&& final(self)@ == (StoreView { messages: old(self)@.messages.remove(jid@), ..old(self)@ })
                    },
                    None => k == -1 && final(self)@ == old(self)@,
                }
            }),
    {
        if !self.messages.contains_key(jid) {
            proof {
                assert(list_of(old(self)@, jid@) =~= Seq::<MessageView>::empty());
            }
            return None;
        }
        let ghost v = self@;
        let list = self.take_list(jid);
        match find_id(&list, id) {
            None => {
                self.restore_list(jid, list);
                assert(self@.messages =~= v.messages);
                None
            },
            Some(k) => {
                let ghost lv = list_view(list@);
                let mut list = list;
                let m = list.remove(k);
                assert(list_view(list@) =~= lv.remove(k as int));
                Some((list, k, m))
            },
        }
    }

    /// Puts an unchanged message back where `open_message` took it from.
    fn close_message(&mut self, jid: &str, list: Vec<StoredMessage>, k: usize, m: StoredMessage)
        requires
            k <= list@.len(),
            old(self)@.messages.contains_key(jid@) == false,
        ensures
            final(self)@ == (StoreView {
                messages: old(self)@.messages.insert(jid@, list_view(list@).insert(k as int, m@)),
                ..old(self)@
            }),
    {
        let ghost lb = list_view(list@);
        let ghost mv = m@;
        let mut list = list;
        list.insert(k, m);
        assert(list_view(list@) =~= lb.insert(k as int, mv));
        self.restore_list(jid, list);
    }

    /// Marks a message deleted for everyone: its text, media and kind go;
    /// true when it was not deleted yet.
    pub fn mark_deleted(&mut self, jid: &str, id: &str) -> (r: bool)
        ensures
            ({
                let k = message_index(old(self)@, jid@, id@);
                let m = list_of(old(self)@, jid@)[k];
                &&& r == (k >= 0 && !m.deleted)
                &&& r ==> final(self)@ == with_message(
                    old(self)@,
                    jid@,
                    k,
                    MessageView { deleted: true, kind: MessageKind::Text, text: seq![], raw: None, ..m },
                )
                &&& !r ==> final(self)@ == old(self)@
            }),
    {
        let ghost v = self@;
        match self.open_message(jid, id) {
            None => false,
            Some((list, k, m)) => {
                let ghost lv = list_of(v, jid@);
                assert(lv.remove(k as int).insert(k as int, m@) =~= lv);
                if m.deleted {
                    self.close_message(jid, list, k, m);
                    assert(self@.messages =~= v.messages);
                    return false;
                }
                let mut m = m;
                m.deleted = true;
                m.kind = MessageKind::Text;
                m.text = String::new();
                m.raw = None;
                let ghost mv = m@;
                assert(lv.remove(k as int).insert(k as int, mv) =~= lv.update(k as int, mv));
                self.put_message(jid, list, k, m);
                assert(self@.messages =~= with_message(v, jid@, k as int, mv).messages);
                true
            },
        }
    }

    /// Raises the delivery status of an own message (it never goes down);
    /// true when it changed.
    pub fn set_status(&mut self, jid: &str, id: &str, status: u32) -> (r: bool)
        ensures
            ({
                let k = message_index(old(self)@, jid@, id@);
                let m = list_of(old(self)@, jid@)[k];
                &&& r == (k >= 0 && m.from_me && m.status < status)
                &&& r ==> final(self)@ == with_message(old(self)@, jid@, k, MessageView { status, ..m })
                &&& !r ==> final(self)@ == old(self)@
            }),
    {
        let ghost v = self@;
        match self.open_message(jid, id) {
            None => false,
            Some((list, k, m)) => {
                let ghost lv = list_of(v, jid@);
                assert(lv.remove(k as int).insert(k as int, m@) =~= lv);
                if !m.from_me || m.status >= status {
                    self.close_message(jid, list, k, m);
                    assert(self@.messages =~= v.messages);
                    return false;
                }
                let mut m = m;
                m.status = status;
                let ghost mv = m@;
                assert(lv.remove(k as int).insert(k as int, mv) =~= lv.update(k as int, mv));
                self.put_message(jid, list, k, m);
                assert(self@.messages =~= with_message(v, jid@, k as int, mv).messages);
                true
            },
        }
    }

    /// Sets, or with an empty emoji removes, one person's reaction to a
    /// message; true when the message is here.
    pub fn apply_reaction(&mut self, jid: &str, target_id: &str, reactor: &str, emoji: &str) -> (r: bool)
        ensures
            ({
                let k = message_index(old(self)@, jid@, target_id@);
                let m = list_of(old(self)@, jid@)[k];
                let reactions = if emoji@.len() == 0 {
                    m.reactions.remove(reactor@)
                } else {
                    m.reactions.insert(reactor@, without_selectors(emoji@))
                };
                &&& r == (k >= 0)
                &&& r ==> final(self)@ == with_message(old(self)@, jid@, k, MessageView { reactions, ..m })
                &&& !r ==> final(self)@ == old(self)@
            }),
    {
        let ghost v = self@;
        match self.open_message(jid, target_id) {
            None => false,
            Some((list, k, m)) => {
                let ghost lv = list_of(v, jid@);
                let ghost before = m@;
                let mut m = m;
                if emoji.is_empty() {
                    m.reactions.remove(reactor);
                    assert(text_views(m.reactions@) =~= before.reactions.remove(reactor@));
                } else {
                    let e = clean_text(emoji);
                    let ghost ev = e@;
                    m.reactions.insert(reactor.to_string(), e);
                    assert(text_views(m.reactions@) =~= before.reactions.insert(reactor@, ev));
                }
                let ghost mv = m@;
                assert(lv.remove(k as int).insert(k as int, mv) =~= lv.update(k as int, mv));
                self.put_message(jid, list, k, m);
                assert(self@.messages =~= with_message(v, jid@, k as int, mv).messages);
                true
            },
        }
    }
}

// ---------------------------------------------------------------------------
// Copies, hydration, calls
// ---------------------------------------------------------------------------

fn copy_texts(v: &Vec<String>) -> (r: Vec<String>)
    ensures
        r@.map_values(|s: String| s@) == v@.map_values(|s: String| s@),
{
    let n = v.len();
    let mut r: Vec<String> = Vec::new();
    let mut i: usize = 0;
    while i < n
        invariant
            n == v@.len(),
            i <= n,
            r@.map_values(|s: String| s@) == v@.take(i as int).map_values(|s: String| s@),
        decreases n - i,
    {
        let ghost rb = r@;
        let c = copy_text(&v[i]);
        let ghost cv = c@;
        r.push(c);
        assert(r@.map_values(|s: String| s@) =~= rb.map_values(|s: String| s@).push(cv));
        assert(v@.take(i + 1) =~= v@.take(i as int).push(v@[i as int]));
        assert(v@.take(i + 1).map_values(|s: String| s@) =~= v@.take(i as int).map_values(|s: String| s@).push(v@[i as int]@));
        i = i + 1;
    }
    assert(v@.take(n as int) =~= v@);
    r
}

fn copy_bytes(v: &Vec<u8>) -> (r: Vec<u8>)
    ensures
        r@ == v@,
{
    let n = v.len();
    let mut r: Vec<u8> = Vec::new();
    let mut i: usize = 0;
    while i < n
        invariant
            n == v@.len(),
            i <= n,
            r@ == v@.take(i as int),
        decreases n - i,
    {
        r.push(v[i]);
        assert(v@.take(i + 1) =~= v@.take(i as int).push(v@[i as int]));
        i = i + 1;
    }
    assert(v@.take(n as int) =~= v@);
    r
}

impl StoredMessage {
    /// A copy holding the same values.
    pub fn copy(&self) -> (r: StoredMessage)
        ensures
            r@ == self@,
    {
        StoredMessage {
            id: copy_text(&self.id),
            jid: copy_text(&self.jid),
            kind: self.kind,
            text: copy_text(&self.text),
            from_me: self.from_me,
            sender: copy_text(&self.sender),
            sender_jid: copy_text(&self.sender_jid),
            forwarded: self.forwarded,
            deleted: self.deleted,
            gif: self.gif,
            starred: self.starred,
            sticker: self.sticker,
            mentions: copy_texts(&self.mentions),
            mentions_me: self.mentions_me,
            quote_id: copy_text(&self.quote_id),
            quote_author: copy_text(&self.quote_author),
            quote_text: copy_text(&self.quote_text),
            link_title: copy_text(&self.link_title),
            link_desc: copy_text(&self.link_desc),
            link_url: copy_text(&self.link_url),
            timestamp: self.timestamp,
            mimetype: copy_text(&self.mimetype),
            media_w: self.media_w,
            media_h: self.media_h,
            duration_sec: self.duration_sec,
            status: self.status,
            reactions: self.reactions.copy(),
            raw: match &self.raw {
                Some(b) => Some(copy_bytes(b)),
                None => None,
            },
        }
    }
}

impl CallEntry {
    /// A copy holding the same values.
    pub fn copy(&self) -> (r: CallEntry)
        ensures
            r@ == self@,
    {
        CallEntry {
            id: copy_text(&self.id),
            jid: copy_text(&self.jid),
            video: self.video,
            group: self.group,
            status: copy_text(&self.status),
            timestamp: self.timestamp,
        }
    }
}

/// The messages of `src` whose id is not in `ids`.
pub open spec fn not_in(src: Seq<MessageView>, ids: Seq<Seq<char>>) -> Seq<MessageView>
    decreases src.len(),
{
    if src.len() == 0 {
        seq![]
    } else if ids.contains(src.last().id) {
        not_in(src.drop_last(), ids)
    } else {
        not_in(src.drop_last(), ids).push(src.last())
    }
}

/// A chat's list read from disk, joined by the messages that arrived while
/// the chat was cold: those the disk lacks are added and the whole list
/// put back in time order; with nothing live, the disk list as it is.
pub open spec fn hydrated_list(disk: Seq<MessageView>, live: Seq<MessageView>) -> Seq<MessageView> {
    if live.len() == 0 {
        disk
    } else {
        by_time(disk + not_in(live, ids_of(disk)))
    }
}

/// How many calls the log keeps.
pub const CALL_LOG: usize = 100;

/// The first index from `from` on of a call with id `id`, or -1.
pub open spec fn call_index(calls: Seq<CallView>, id: Seq<char>, from: int) -> int
    decreases calls.len() - from,
{
    if from < 0 || from >= calls.len() {
        -1
    } else if calls[from].id == id {
        from
    } else {
        call_index(calls, id, from + 1)
    }
}

proof fn lemma_call_index(calls: Seq<CallView>, id: Seq<char>, from: int)
    requires
        0 <= from,
    ensures
        call_index(calls, id, from) == -1 || (from <= call_index(calls, id, from) < calls.len()
            && calls[call_index(calls, id, from)].id == id),
    decreases calls.len() - from,
{
    if from < calls.len() && calls[from].id != id {
        lemma_call_index(calls, id, from + 1);
    }
}

/// The first `n` calls of the log.
pub open spec fn first_calls(s: Seq<CallView>, n: nat) -> Seq<CallView> {
    if s.len() > n {
        s.take(n as int)
    } else {
        s
    }
}

/// The check marks an own message shows, and whether they are blue: one
/// when sent, two when delivered, two blue when read.
pub open spec fn ticks_of(m: MessageView) -> (Seq<char>, bool) {
    if !m.from_me {
        (""@, false)
    } else if m.status >= 4 {
        ("\u{2713}\u{2713}"@, true)
    } else if m.status >= 3 {
        ("\u{2713}\u{2713}"@, false)
    } else {
        ("\u{2713}"@, false)
    }
}

pub fn ticks_for(m: &StoredMessage) -> (r: (&'static str, bool))
    ensures
        r.0@ == ticks_of(m@).0,
        r.1 == ticks_of(m@).1,
        !m.from_me ==> r.0@.len() == 0 && !r.1,
        m.from_me && m.status < 3 ==> r.0@ == seq!['\u{2713}'] && !r.1,
        m.from_me && m.status == 3 ==> r.0@ == seq!['\u{2713}', '\u{2713}'] && !r.1,
        m.from_me && m.status >= 4 ==> r.0@ == seq!['\u{2713}', '\u{2713}'] && r.1,
{
    proof {
        reveal_strlit("");
        reveal_strlit("\u{2713}");
        reveal_strlit("\u{2713}\u{2713}");
    }
    if !m.from_me {
        return ("", false);
    }
    if m.status >= 4 {
        ("\u{2713}\u{2713}", true)
    } else if m.status >= 3 {
        ("\u{2713}\u{2713}", false)
    } else {
        ("\u{2713}", false)
    }
}

impl Store {
    /// Records our own (normalized) jids and what they resolve to, so
    /// mentions can be matched against them; empty ones are skipped.
    pub fn set_self(&mut self, ids: &Vec<String>)
        ensures
            final(self)@ == (StoreView {
                self_jids: old(self)@.self_jids + Set::new(
                    |j: Seq<char>| exists|i: int| 0 <= i < ids@.len() && ids@[i]@.len() != 0
                        && (j == ids@[i]@ || j == canon_of(old(self)@.aliases, ids@[i]@)),
                ),
                ..old(self)@
            }),
    {
        let ghost v = self@;
        let n = ids.len();
        let mut i: usize = 0;
        assert(v.self_jids + Set::new(
            |j: Seq<char>| exists|w: int| 0 <= w < 0 && ids@[w]@.len() != 0
                && (j == ids@[w]@ || j == canon_of(v.aliases, ids@[w]@)),
        ) =~= v.self_jids);
        while i < n
            invariant
                n == ids@.len(),
                i <= n,
                self@ == (StoreView {
                    self_jids: v.self_jids + Set::new(
                        |j: Seq<char>| exists|w: int| 0 <= w < i && ids@[w]@.len() != 0
                            && (j == ids@[w]@ || j == canon_of(v.aliases, ids@[w]@)),
                    ),
                    ..v
                }),
            decreases n - i,
        {
            let id = &ids[i];
            if !id.as_str().is_empty() {
                let c = self.canon(id.as_str());
                self.self_jids.insert(copy_text(id));
                self.self_jids.insert(c);
            }
            proof {
                let s0 = Set::new(
                    |j: Seq<char>| exists|w: int| 0 <= w < i && ids@[w]@.len() != 0
                        && (j == ids@[w]@ || j == canon_of(v.aliases, ids@[w]@)),
                );
                let s1 = Set::new(
                    |j: Seq<char>| exists|w: int| 0 <= w < i + 1 && ids@[w]@.len() != 0
                        && (j == ids@[w]@ || j == canon_of(v.aliases, ids@[w]@)),
                );
                assert(self@.self_jids =~= v.self_jids + s1) by {
                    assert forall|j: Seq<char>| s1.contains(j) implies #[trigger] (v.self_jids + s0).contains(j)
                        || (ids@[i as int]@.len() != 0 && (j == ids@[i as int]@ || j == canon_of(
                        v.aliases,
                        ids@[i as int]@,
                    ))) by {
                        let w = choose|w: int| 0 <= w < i + 1 && ids@[w]@.len() != 0
                            && (j == ids@[w]@ || j == canon_of(v.aliases, ids@[w]@));
                        if w < i {
                            assert(s0.contains(j));
                        }
                    }
                    assert forall|j: Seq<char>| s0.contains(j) implies #[trigger] s1.contains(j) by {
                        let w = choose|w: int| 0 <= w < i && ids@[w]@.len() != 0
                            && (j == ids@[w]@ || j == canon_of(v.aliases, ids@[w]@));
                        assert(0 <= w < i + 1);
                    }
                    if ids@[i as int]@.len() != 0 {
                        assert(s1.contains(ids@[i as int]@));
                        assert(s1.contains(canon_of(v.aliases, ids@[i as int]@)));
                    }
                }
            }
            i = i + 1;
        }
    }

    /// The messages of a chat, none when it has no list.
    pub fn messages_for(&self, jid: &str) -> (r: Vec<&StoredMessage>)
        ensures
            r@.map_values(|m: &StoredMessage| m@) == list_of(self@, jid@),
    {
        let mut out: Vec<&StoredMessage> = Vec::new();
        match self.messages.get(jid) {
            Some(list) => {
                let n = list.len();
                let mut i: usize = 0;
                while i < n
                    invariant
                        n == list@.len(),
                        i <= n,
                        out@.map_values(|m: &StoredMessage| m@) == list_view(list@).take(i as int),
                    decreases n - i,
                {
                    let ghost ob = out@;
                    out.push(&list[i]);
                    assert(out@.map_values(|m: &StoredMessage| m@) =~= ob.map_values(|m: &StoredMessage| m@).push(list@[i as int]@));
                    assert(list_view(list@).take(i + 1) =~= list_view(list@).take(i as int).push(list@[i as int]@));
                    i = i + 1;
                }
                assert(list_view(list@).take(n as int) =~= list_view(list@));
            },
            None => {
                assert(out@.map_values(|m: &StoredMessage| m@) =~= Seq::<MessageView>::empty());
            },
        }
        out
    }

    /// The oldest message of one chat that still has its protobuf (the
    /// anchor for fetching older history of that chat).
    pub fn oldest_in_chat(&self, jid: &str) -> (r: Option<&StoredMessage>)
        ensures
            match r {
                Some(m) => exists|k: int| 0 <= k < list_of(self@, jid@).len()
                    && list_of(self@, jid@)[k] == m@ && m@.timestamp > 0 && m@.raw is Some
                    && forall|j: int| 0 <= j < k ==> !(#[trigger] list_of(self@, jid@)[j].timestamp > 0
                        && list_of(self@, jid@)[j].raw is Some),
                None => forall|j: int| 0 <= j < list_of(self@, jid@).len() ==> !(
                    #[trigger] list_of(self@, jid@)[j].timestamp > 0 && list_of(self@, jid@)[j].raw is Some),
            },
    {
        match self.messages.get(jid) {
            None => None,
            Some(list) => {
                let n = list.len();
                let mut i: usize = 0;
                while i < n
                    invariant
                        n == list@.len(),
                        i <= n,
                        list_view(list@) == list_of(self@, jid@),
                        forall|j: int| 0 <= j < i ==> !(#[trigger] list_of(self@, jid@)[j].timestamp > 0
                            && list_of(self@, jid@)[j].raw is Some),
                    decreases n - i,
                {
                    if list[i].timestamp > 0 && list[i].raw.is_some() {
                        assert(list_of(self@, jid@)[i as int] == list@[i as int]@);
                        return Some(&list[i]);
                    }
                    assert(list_of(self@, jid@)[i as int] == list@[i as int]@);
                    i = i + 1;
                }
                None
            },
        }
    }

    /// Drops a chat back to its metadata; a chat with unsaved changes stays.
    pub fn evict(&mut self, jid: &str)
        ensures
            ({
                let j = canon_of(old(self)@.aliases, jid@);
                if old(self)@.dirty_jids.contains(j) {
                    final(self)@ == old(self)@
                } else {
                    final(self)@ == (StoreView {
                        messages: old(self)@.messages.remove(j),
                        hydrated: old(self)@.hydrated.remove(j),
                        ..old(self)@
                    })
                }
            }),
    {
        let j = self.canon(jid);
        if self.dirty_jids.contains(j.as_str()) {
            return;
        }
        self.messages.remove(j.as_str());
        self.hydrated.remove(j.as_str());
        assert(self@.messages =~= old(self)@.messages.remove(j@));
    }

    /// Marks a chat as read from disk this run; false when it already was.
    pub fn mark_hydrated(&mut self, jid: &str) -> (r: bool)
        ensures
            r == !old(self)@.hydrated.contains(jid@),
            final(self)@ == (StoreView { hydrated: old(self)@.hydrated.insert(jid@), ..old(self)@ }),
    {
        self.hydrated.insert(jid.to_string())
    }

    /// Puts a chat's list read from disk in place, keeping what arrived
    /// while the chat was cold.
    pub fn merge_disk(&mut self, jid: &str, disk: Vec<StoredMessage>)
        ensures
            final(self)@ == (StoreView {
                messages: old(self)@.messages.insert(jid@, hydrated_list(list_view(disk@), list_of(old(self)@, jid@))),
                ..old(self)@
            }),
    {
        let ghost v = self@;
        let ghost dv = list_view(disk@);
        let live = self.take_list(jid);
        let ghost lv = list_view(live@);
        if live.len() == 0 {
            self.restore_list(jid, disk);
            assert(self@.messages =~= v.messages.insert(jid@, hydrated_list(dv, lv)));
            return;
        }
        let mut seen = KeySet::new();
        let dn = disk.len();
        let mut k: usize = 0;
        while k < dn
            invariant
                dn == disk@.len(),
                dv == list_view(disk@),
                k <= dn,
                forall|x: Seq<char>| #[trigger] seen@.contains(x) <==> ids_of(dv.take(k as int)).contains(x),
            decreases dn - k,
        {
            seen.insert(copy_text(&disk[k].id));
            proof {
                let t0 = ids_of(dv.take(k as int));
                let t1 = ids_of(dv.take(k + 1));
                assert(t1 =~= t0.push(dv[k as int].id));
                assert forall|x: Seq<char>| #[trigger] seen@.contains(x) <==> t1.contains(x) by {
                    if t0.contains(x) {
                        let w = choose|w: int| 0 <= w < t0.len() && t0[w] == x;
                        assert(t1[w] == x);
                    }
                    if t1.contains(x) && x != dv[k as int].id {
                        let w = choose|w: int| 0 <= w < t1.len() && t1[w] == x;
                        assert(t0[w] == x);
                    }
                    assert(t1[k as int] == dv[k as int].id);
                }
            }
            k = k + 1;
        }
        assert(dv.take(dn as int) =~= dv);
        let mut list = disk;
        let ln = live.len();
        let mut rest = live;
        let mut i: usize = 0;
        while i < ln
            invariant
                ln == lv.len(),
                i <= ln,
                list_view(rest@) == lv.skip(i as int),
                list_view(list@) == dv + not_in(lv.take(i as int), ids_of(dv)),
                forall|x: Seq<char>| #[trigger] seen@.contains(x) <==> ids_of(dv).contains(x),
            decreases ln - i,
        {
            assert(list_view(rest@).len() == ln - i);
            let ghost rb = rest@;
            let m = rest.remove(0);
            proof {
                lemma_list_view_front(rb);
                assert(lv.skip(i as int)[0] == lv[i as int]);
                assert(lv.skip(i as int).skip(1) =~= lv.skip(i + 1));
                assert(lv.take(i + 1).drop_last() =~= lv.take(i as int));
                assert(lv.take(i + 1).last() == lv[i as int]);
            }
            if !seen.contains(m.id.as_str()) {
                let ghost lb = list@;
                let ghost mv = m@;
                list.push(m);
                assert(list_view(list@) =~= list_view(lb).push(mv));
                assert(list_view(list@) =~= dv + not_in(lv.take(i + 1), ids_of(dv)));
            } else {
                assert(list_view(list@) =~= dv + not_in(lv.take(i + 1), ids_of(dv)));
            }
            i = i + 1;
        }
        assert(lv.take(ln as int) =~= lv);
        let sorted = sort_by_time(list);
        self.restore_list(jid, sorted);
        assert(self@.messages =~= v.messages.insert(jid@, hydrated_list(dv, lv)));
    }

    /// Records a call event for a normalized caller jid; the changed or new
    /// entry, none when nothing changed. A new call goes first in the log,
    /// which keeps the latest `CALL_LOG`; without a timestamp it takes `now`.
    pub fn upsert_call(
        &mut self,
        id: &str,
        from: &str,
        status: &str,
        video: bool,
        group: bool,
        timestamp: i64,
        now: i64,
    ) -> (r: Option<CallEntry>)
        ensures
            ({
                let calls = old(self)@.calls;
                let k = call_index(calls, id@, 0);
                if k >= 0 {
                    if calls[k].status == status@ {
                        r is None && final(self)@ == old(self)@
                    } else {
                        let e = CallView { status: status@, ..calls[k] };
                        &&& final(self)@ == (StoreView { calls: calls.update(k, e), calls_dirty: true, ..old(self)@ })
                        &&& r matches Some(c) && c@ == e
                    }
                } else {
                    let e = CallView {
                        id: id@,
                        jid: canon_of(old(self)@.aliases, from@),
                        video,
                        group,
                        status: status@,
                        timestamp: if timestamp > 0 { timestamp } else { now },
                    };
                    &&& final(self)@ == (StoreView {
                        calls: first_calls(seq![e] + calls, CALL_LOG as nat),
                        calls_dirty: true,
                        ..old(self)@
                    })
                    &&& r matches Some(c) && c@ == e
                }
            }),
    {
        let ghost calls = self@.calls;
        let jid = self.canon(from);
        let n = self.calls.len();
        let mut k: usize = 0;
        while k < n && !str_eq(self.calls[k].id.as_str(), id)
            invariant
                n == self.calls@.len(),
                k <= n,
                calls == self.calls@.map_values(|c: CallEntry| c@),
                call_index(calls, id@, 0) == call_index(calls, id@, k as int),
            decreases n - k,
        {
            assert(calls[k as int] == self.calls@[k as int]@);
            k = k + 1;
        }
        proof {
            if k < n {
                assert(calls[k as int] == self.calls@[k as int]@);
            }
            lemma_call_index(calls, id@, 0);
        }
        if k < n {
            if str_eq(self.calls[k].status.as_str(), status) {
                return None;
            }
            let ghost cb = self.calls@;
            let mut c = self.calls.remove(k);
            assert(c@ == calls[k as int]);
            c.status = status.to_string();
            let out = c.copy();
            let ghost cv = c@;
            assert(cv == CallView { status: status@, ..calls[k as int] });
            self.calls.insert(k, c);
            self.calls_dirty = true;
            assert(self.calls@ =~= cb.update(k as int, self.calls@[k as int]));
            assert(self@.calls =~= calls.update(k as int, cv));
            return Some(out);
        }
        let entry = CallEntry {
            id: id.to_string(),
            jid,
            video,
            group,
            status: status.to_string(),
            timestamp: if timestamp > 0 { timestamp } else { now },
        };
        let out = entry.copy();
        let ghost ev = entry@;
        let ghost cb = self.calls@;
        self.calls.insert(0, entry);
        assert(self.calls@.map_values(|c: CallEntry| c@) =~= seq![ev] + calls);
        let ghost cm = self.calls@;
        self.calls.truncate(CALL_LOG);
        proof {
            if cm.len() > CALL_LOG {
                assert(self.calls@ =~= cm.subrange(0, CALL_LOG as int));
                assert(self.calls@.map_values(|c: CallEntry| c@) =~= (seq![ev] + calls).take(CALL_LOG as int));
            } else {
                assert(self.calls@ == cm);
            }
        }
        self.calls_dirty = true;
        assert(self@.calls =~= first_calls(seq![ev] + calls, CALL_LOG as nat));
        Some(out)
    }
}

// ---------------------------------------------------------------------------
// The chat list order, reactions
// ---------------------------------------------------------------------------

/// `a` goes strictly before `b` in the chat list: pinned chats first, the
/// latest pinned on top; the others newest first.
pub open spec fn chat_less(a: ChatView, b: ChatView) -> bool {
    if (a.pinned > 0) != (b.pinned > 0) {
        a.pinned > 0
    } else if a.pinned > 0 {
        a.pinned > b.pinned
    } else {
        a.timestamp > b.timestamp
    }
}

/// One step of a stable sort of chats: `c` after every chat not behind it.
pub open spec fn insert_chat(s: Seq<ChatView>, c: ChatView) -> Seq<ChatView>
    decreases s.len(),
{
    if s.len() == 0 || !chat_less(c, s.last()) {
        s.push(c)
    } else {
        insert_chat(s.drop_last(), c).push(s.last())
    }
}

/// The chats stably sorted for the chat list.
pub open spec fn chat_order(s: Seq<ChatView>) -> Seq<ChatView>
    decreases s.len(),
{
    if s.len() == 0 {
        s
    } else {
        insert_chat(chat_order(s.drop_last()), s.last())
    }
}

proof fn lemma_insert_chat_at(s: Seq<ChatView>, c: ChatView, p: int)
    requires
        0 <= p <= s.len(),
        forall|k: int| p <= k < s.len() ==> chat_less(c, #[trigger] s[k]),
        p == 0 || !chat_less(c, s[p - 1]),
    ensures
        insert_chat(s, c) == s.take(p).push(c) + s.skip(p),
    decreases s.len(),
{
    if s.len() == 0 {
        assert(s.take(p).push(c) + s.skip(p) =~= s.push(c));
    } else if !chat_less(c, s.last()) {
        assert(p == s.len());
        assert(s.take(p).push(c) + s.skip(p) =~= s.push(c));
    } else {
        lemma_insert_chat_at(s.drop_last(), c, p);
        assert(s.drop_last().take(p).push(c) + s.drop_last().skip(p) + seq![s.last()]
            =~= s.take(p).push(c) + s.skip(p));
    }
}

fn chat_less_exec(a: &ChatMeta, b: &ChatMeta) -> (r: bool)
    ensures
        r == chat_less(a@, b@),
{
    if (a.pinned > 0) != (b.pinned > 0) {
        a.pinned > 0
    } else if a.pinned > 0 {
        a.pinned > b.pinned
    } else {
        a.timestamp > b.timestamp
    }
}

impl Store {
    /// The chats in chat-list order: pinned first (latest pin on top), then
    /// newest first; chats that tie keep the table's order.
    pub fn sorted_chats(&self) -> (r: Vec<&ChatMeta>)
        ensures
            r@.map_values(|c: &ChatMeta| c@) == chat_order(self.chats.values().map_values(|c: ChatMeta| c@)),
            forall|i: int, j: int| 0 <= i < j < r@.len() ==> {
                &&& (#[trigger] r@[j]).pinned > 0 ==> (#[trigger] r@[i]).pinned > 0
                &&& r@[i].pinned > 0 && r@[j].pinned > 0 ==> r@[i].pinned >= r@[j].pinned
                &&& r@[i].pinned <= 0 && r@[j].pinned <= 0 ==> r@[i].timestamp >= r@[j].timestamp
            },
    {
        let ghost all = self.chats.values().map_values(|c: ChatMeta| c@);
        let n = self.chats.len();
        let mut out: Vec<&ChatMeta> = Vec::new();
        let mut i: usize = 0;
        while i < n
            invariant
                n == self.chats.values().len(),
                n == self.chats.keys().len(),
                all == self.chats.values().map_values(|c: ChatMeta| c@),
                i <= n,
                out@.map_values(|c: &ChatMeta| c@) == chat_order(all.take(i as int)),
            decreases n - i,
        {
            let c = self.chats.value_at(i);
            let mut p = out.len();
            while p > 0 && chat_less_exec(c, out[p - 1])
                invariant
                    p <= out@.len(),
                    forall|k: int| p <= k < out@.len() ==> chat_less(c@, #[trigger] out@[k]@),
                decreases p,
            {
                p = p - 1;
            }
            let ghost before = out@.map_values(|c: &ChatMeta| c@);
            proof {
                lemma_insert_chat_at(before, c@, p as int);
            }
            out.insert(p, c);
            assert(out@.map_values(|c: &ChatMeta| c@) =~= before.take(p as int).push(c@) + before.skip(p as int));
            assert(all.take(i + 1).drop_last() =~= all.take(i as int));
            assert(all[i as int] == c@);
            i = i + 1;
        }
        assert(all.take(n as int) =~= all);
        proof {
            law_chat_list_order(all);
            let o = out@.map_values(|c: &ChatMeta| c@);
            assert forall|i: int, j: int| 0 <= i < j < out@.len() implies {
                &&& (#[trigger] out@[j]).pinned > 0 ==> (#[trigger] out@[i]).pinned > 0
                &&& out@[i].pinned > 0 && out@[j].pinned > 0 ==> out@[i].pinned >= out@[j].pinned
                &&& out@[i].pinned <= 0 && out@[j].pinned <= 0 ==> out@[i].timestamp >= out@[j].timestamp
            } by {
                assert(o[i] == out@[i]@ && o[j] == out@[j]@);
            }
        }
        out
    }
}

/// The chat list order, on the fields: pinned chats come before the others;
/// among pinned chats the one pinned later is higher, whatever their
/// message times; among the others the newer message is higher.
pub proof fn law_chat_list_order(s: Seq<ChatView>)
    ensures
        forall|i: int, j: int| 0 <= i < j < chat_order(s).len() ==> {
            &&& (#[trigger] chat_order(s)[j]).pinned > 0 ==> (#[trigger] chat_order(s)[i]).pinned > 0
            &&& chat_order(s)[i].pinned > 0 && chat_order(s)[j].pinned > 0 ==> chat_order(s)[i].pinned >= chat_order(s)[j].pinned
            &&& chat_order(s)[i].pinned <= 0 && chat_order(s)[j].pinned <= 0
                ==> chat_order(s)[i].timestamp >= chat_order(s)[j].timestamp
        },
{
    law_chat_order_is_sorted(s);
    let o = chat_order(s);
    assert forall|i: int, j: int| 0 <= i < j < o.len() implies {
        &&& (#[trigger] o[j]).pinned > 0 ==> (#[trigger] o[i]).pinned > 0
        &&& o[i].pinned > 0 && o[j].pinned > 0 ==> o[i].pinned >= o[j].pinned
        &&& o[i].pinned <= 0 && o[j].pinned <= 0 ==> o[i].timestamp >= o[j].timestamp
    } by {
        assert(!chat_less(o[j], o[i]));
    }
}

proof fn lemma_insert_chat_sorted(s: Seq<ChatView>, c: ChatView)
    requires
        forall|i: int, j: int| 0 <= i < j < s.len() ==> !chat_less(#[trigger] s[j], #[trigger] s[i]),
    ensures
        forall|i: int, j: int|
            0 <= i < j < insert_chat(s, c).len() ==> !chat_less(#[trigger] insert_chat(s, c)[j], #[trigger] insert_chat(s, c)[i]),
        insert_chat(s, c).to_multiset() == s.to_multiset().insert(c),
    decreases s.len(),
{
    broadcast use vstd::seq_lib::group_to_multiset_ensures;
    if s.len() == 0 || !chat_less(c, s.last()) {
        let r = s.push(c);
        assert forall|i: int, j: int| 0 <= i < j < r.len() implies !chat_less(#[trigger] r[j], #[trigger] r[i]) by {
            if j == s.len() && i < s.len() {
                // c is not before the last chat, which nothing before it follows.
                if chat_less(c, s[i]) {
                    assert(!chat_less(s.last(), s[i]) || i == s.len() - 1);
                }
            }
        }
    } else {
        lemma_insert_chat_sorted(s.drop_last(), c);
        let t = insert_chat(s.drop_last(), c);
        let r = t.push(s.last());
        assert(s.drop_last().to_multiset().insert(s.last()) =~= s.to_multiset()) by {
            assert(s =~= s.drop_last().push(s.last()));
        }
        assert forall|i: int, j: int| 0 <= i < j < r.len() implies !chat_less(#[trigger] r[j], #[trigger] r[i]) by {
            if j == r.len() - 1 && i < t.len() {
                // Every chat in t is c or a chat of s before the last one.
                assert(t.to_multiset().count(t[i]) > 0);
                if t[i] != c {
                    assert(s.drop_last().to_multiset().count(t[i]) > 0);
                    let k = choose|k: int| 0 <= k < s.drop_last().len() && s.drop_last()[k] == t[i];
                    assert(!chat_less(s[s.len() - 1], s[k]));
                }
            }
        }
    }
}

/// The chat list is in order: no chat sorts strictly before one above it,
/// and it holds exactly the chats it was given.
pub proof fn law_chat_order_is_sorted(s: Seq<ChatView>)
    ensures
        forall|i: int, j: int|
            0 <= i < j < chat_order(s).len() ==> !chat_less(#[trigger] chat_order(s)[j], #[trigger] chat_order(s)[i]),
        chat_order(s).to_multiset() == s.to_multiset(),
    decreases s.len(),
{
    broadcast use vstd::seq_lib::group_to_multiset_ensures;
    if s.len() > 0 {
        law_chat_order_is_sorted(s.drop_last());
        lemma_insert_chat_sorted(chat_order(s.drop_last()), s.last());
        assert(s =~= s.drop_last().push(s.last()));
    } else {
        assert(s.to_multiset() =~= vstd::multiset::Multiset::empty());
    }
}

/// The non-empty texts of a sequence, in order.
pub open spec fn non_empty(s: Seq<Seq<char>>) -> Seq<Seq<char>>
    decreases s.len(),
{
    if s.len() == 0 {
        seq![]
    } else if s.last().len() == 0 {
        non_empty(s.drop_last())
    } else {
        non_empty(s.drop_last()).push(s.last())
    }
}

/// The first three distinct texts, in order of first appearance.
pub open spec fn first_three_distinct(s: Seq<Seq<char>>) -> Seq<Seq<char>>
    decreases s.len(),
{
    if s.len() == 0 {
        seq![]
    } else {
        let u = first_three_distinct(s.drop_last());
        if u.len() >= 3 || u.contains(s.last()) {
            u
        } else {
            u.push(s.last())
        }
    }
}

/// The texts one after another.
pub open spec fn concat_all(s: Seq<Seq<char>>) -> Seq<char>
    decreases s.len(),
{
    if s.len() == 0 {
        seq![]
    } else {
        concat_all(s.drop_last()) + s.last()
    }
}

/// The reactions line under a bubble: up to three distinct emoji, then
/// the number of reactions when there is more than one.
pub open spec fn reaction_line(values: Seq<Seq<char>>) -> Seq<char> {
    let vs = non_empty(values);
    let joined = concat_all(first_three_distinct(vs));
    if vs.len() == 0 {
        seq![]
    } else if vs.len() > 1 {
        joined + seq![' '] + decimal(vs.len())
    } else {
        joined
    }
}

proof fn lemma_non_empty_items(s: Seq<Seq<char>>)
    ensures
        forall|i: int| 0 <= i < non_empty(s).len() ==> (#[trigger] non_empty(s)[i]).len() > 0,
    decreases s.len(),
{
    if s.len() > 0 {
        lemma_non_empty_items(s.drop_last());
        let p = non_empty(s.drop_last());
        if s.last().len() > 0 {
            assert forall|i: int| 0 <= i < p.push(s.last()).len() implies (#[trigger] p.push(s.last())[i]).len() > 0 by {
                if i < p.len() {
                    assert(p.push(s.last())[i] == p[i]);
                }
            }
        }
    }
}

proof fn lemma_first_three_distinct(s: Seq<Seq<char>>)
    ensures
        first_three_distinct(s).len() <= 3,
        s.len() > 0 ==> first_three_distinct(s).len() >= 1,
        first_three_distinct(s).no_duplicates(),
        forall|i: int| 0 <= i < first_three_distinct(s).len() ==> s.contains(#[trigger] first_three_distinct(s)[i]),
    decreases s.len(),
{
    if s.len() > 0 {
        let p = s.drop_last();
        lemma_first_three_distinct(p);
        let u = first_three_distinct(p);
        assert forall|i: int| 0 <= i < u.len() implies s.contains(#[trigger] u[i]) by {
            let k = choose|k: int| 0 <= k < p.len() && p[k] == u[i];
            assert(s[k] == u[i]);
        }
        if !(u.len() >= 3 || u.contains(s.last())) {
            let w = u.push(s.last());
            assert(s[s.len() - 1] == s.last());
            assert forall|i: int| 0 <= i < w.len() implies s.contains(#[trigger] w[i]) by {
                if i < u.len() {
                    assert(w[i] == u[i]);
                }
            }
            assert forall|i: int, j: int| 0 <= i < w.len() && 0 <= j < w.len() && i != j implies w[i] != w[j] by {
                if i < u.len() && j < u.len() {
                    assert(w[i] == u[i] && w[j] == u[j]);
                } else if i < u.len() {
                    assert(w[i] == u[i]);
                } else {
                    assert(w[j] == u[j]);
                }
            }
        }
    }
}

/// The reactions line is empty when nobody reacted, the one emoji when one
/// person did, and otherwise one to three distinct emoji of those given,
/// then a space and how many reactions there are.
pub proof fn law_reaction_line_shape(values: Seq<Seq<char>>)
    ensures
        non_empty(values).len() == 0 ==> reaction_line(values).len() == 0,
        non_empty(values).len() == 1 ==> reaction_line(values) == non_empty(values)[0],
        non_empty(values).len() > 1 ==> {
            let u = first_three_distinct(non_empty(values));
            &&& reaction_line(values) == concat_all(u) + seq![' '] + decimal(non_empty(values).len())
            &&& 1 <= u.len() <= 3
            &&& u.no_duplicates()
            &&& forall|i: int| 0 <= i < u.len() ==> (#[trigger] u[i]).len() > 0 && non_empty(values).contains(u[i])
        },
{
    let vs = non_empty(values);
    lemma_non_empty_items(values);
    lemma_first_three_distinct(vs);
    let u = first_three_distinct(vs);
    assert forall|i: int| 0 <= i < u.len() implies (#[trigger] u[i]).len() > 0 && vs.contains(u[i]) by {
        let k = choose|k: int| 0 <= k < vs.len() && vs[k] == u[i];
        assert(vs[k].len() > 0);
    }
    if vs.len() == 1 {
        assert(vs.drop_last() =~= Seq::<Seq<char>>::empty());
        assert(first_three_distinct(vs.drop_last()) =~= Seq::<Seq<char>>::empty());
        assert(u =~= seq![vs[0]]);
        assert(u.drop_last() =~= Seq::<Seq<char>>::empty());
        assert(concat_all(u.drop_last()) =~= Seq::<char>::empty());
        assert(concat_all(u) =~= vs[0]);
    }
}

fn contains_text(list: &Vec<Vec<char>>, x: &Vec<char>) -> (r: bool)
    ensures
        r == list@.map_values(|v: Vec<char>| v@).contains(x@),
{
    let n = list.len();
    let mut k: usize = 0;
    while k < n
        invariant
            n == list@.len(),
            k <= n,
            forall|j: int| 0 <= j < k ==> #[trigger] list@[j]@ != x@,
        decreases n - k,
    {
        if crate::text::seq_eq(&list[k], x) {
            assert(list@.map_values(|v: Vec<char>| v@)[k as int] == x@);
            return true;
        }
        k = k + 1;
    }
    let ghost lv = list@.map_values(|v: Vec<char>| v@);
    assert(!lv.contains(x@)) by {
        if lv.contains(x@) {
            let j = choose|j: int| 0 <= j < lv.len() && lv[j] == x@;
            assert(list@[j]@ == x@);
        }
    }
    false
}

/// The reactions line under a bubble, over the reactions in table order.
pub fn reaction_summary(m: &StoredMessage) -> (r: String)
    ensures
        r@ == reaction_line(m.reactions.values().map_values(|s: String| s@)),
{
    let ghost all = m.reactions.values().map_values(|s: String| s@);
    let n = m.reactions.len();
    let mut count: usize = 0;
    let mut unique: Vec<Vec<char>> = Vec::new();
    let mut i: usize = 0;
    while i < n
        invariant
            n == m.reactions.values().len(),
            n == m.reactions.keys().len(),
            all == m.reactions.values().map_values(|s: String| s@),
            i <= n,
            count == non_empty(all.take(i as int)).len(),
            count <= i,
            unique@.map_values(|v: Vec<char>| v@) == first_three_distinct(non_empty(all.take(i as int))),
        decreases n - i,
    {
        let v = chars_of(m.reactions.value_at(i).as_str());
        assert(all.take(i + 1).drop_last() =~= all.take(i as int));
        assert(all.take(i + 1).last() == v@);
        if v.len() > 0 {
            let ghost ne = non_empty(all.take(i as int));
            assert(non_empty(all.take(i + 1)) == ne.push(v@));
            assert(non_empty(all.take(i + 1)).drop_last() =~= ne);
            if unique.len() < 3 && !contains_text(&unique, &v) {
                let ghost ub = unique@;
                unique.push(v);
                assert(unique@.map_values(|w: Vec<char>| w@) =~= ub.map_values(|w: Vec<char>| w@).push(unique@[ub.len() as int]@));
            }
            count = count + 1;
        }
        i = i + 1;
    }
    assert(all.take(n as int) =~= all);
    let mut out: Vec<char> = Vec::new();
    let un = unique.len();
    let mut k: usize = 0;
    while k < un
        invariant
            un == unique@.len(),
            k <= un,
            out@ == concat_all(unique@.map_values(|v: Vec<char>| v@).take(k as int)),
        decreases un - k,
    {
        crate::text::push_all(&mut out, &unique[k]);
        let ghost us = unique@.map_values(|v: Vec<char>| v@);
        assert(us.take(k + 1).drop_last() =~= us.take(k as int));
        k = k + 1;
    }
    assert(unique@.map_values(|v: Vec<char>| v@).take(un as int) =~= unique@.map_values(|v: Vec<char>| v@));
    if count > 1 {
        out.push(' ');
        push_decimal(&mut out, count as u64);
    }
    string_of(&out)
}

/// How long a status update lives, in seconds.
pub const STATUS_LIFETIME: i64 = 86400;

/// A status posted at `timestamp` is still up at `now`.
pub open spec fn is_fresh(timestamp: i64, now: i64) -> bool {
    timestamp > now - STATUS_LIFETIME
}

/// The updates of a list still up at `now`.
pub open spec fn fresh_only(s: Seq<MessageView>, now: i64) -> Seq<MessageView>
    decreases s.len(),
{
    if s.len() == 0 {
        seq![]
    } else if is_fresh(s.last().timestamp, now) {
        fresh_only(s.drop_last(), now).push(s.last())
    } else {
        fresh_only(s.drop_last(), now)
    }
}

/// The status lists that keep an update still up at `now`, with only those.
pub open spec fn pruned(m: Map<Seq<char>, Seq<MessageView>>, now: i64) -> Map<Seq<char>, Seq<MessageView>> {
    Map::new(
        |k: Seq<char>| m.contains_key(k) && fresh_only(m[k], now).len() > 0,
        |k: Seq<char>| fresh_only(m[k], now),
    )
}

proof fn lemma_fresh_only(s: Seq<MessageView>, now: i64)
    ensures
        forall|x: MessageView| #[trigger] fresh_only(s, now).contains(x) <==> s.contains(x) && x.timestamp > now - 86400,
    decreases s.len(),
{
    if s.len() > 0 {
        let p = s.drop_last();
        let l = s.last();
        lemma_fresh_only(p, now);
        let q = fresh_only(p, now);
        assert forall|x: MessageView| #[trigger] fresh_only(s, now).contains(x) <==> s.contains(x) && x.timestamp > now - 86400 by {
            assert(s == p.push(l));
            if s.contains(x) {
                let k = choose|k: int| 0 <= k < s.len() && s[k] == x;
                if k < p.len() {
                    assert(p[k] == x);
                }
            }
            if p.contains(x) {
                let k = choose|k: int| 0 <= k < p.len() && p[k] == x;
                assert(s[k] == x);
            }
            if is_fresh(l.timestamp, now) {
                if q.push(l).contains(x) {
                    let k = choose|k: int| 0 <= k < q.push(l).len() && q.push(l)[k] == x;
                    if k < q.len() {
                        assert(q[k] == x);
                    }
                }
                if q.contains(x) {
                    let k = choose|k: int| 0 <= k < q.len() && q[k] == x;
                    assert(q.push(l)[k] == x);
                }
                assert(q.push(l)[q.len() as int] == l);
            }
        }
    }
}

/// A status update stays up for a day: after pruning at `now`, an author's
/// list holds exactly the updates posted in the last 24 hours, and an
/// author without any such update is gone.
pub proof fn law_statuses_last_a_day(m: Map<Seq<char>, Seq<MessageView>>, now: i64, k: Seq<char>, x: MessageView)
    ensures
        pruned(m, now).contains_key(k) && pruned(m, now)[k].contains(x)
            <==> m.contains_key(k) && m[k].contains(x) && x.timestamp > now - 86400,
{
    if m.contains_key(k) {
        lemma_fresh_only(m[k], now);
        if m[k].contains(x) && x.timestamp > now - 86400 {
            assert(fresh_only(m[k], now).contains(x));
            assert(fresh_only(m[k], now).len() > 0);
        }
    }
}

/// The status list of an author, none when there is none.
pub open spec fn status_list(v: StoreView, jid: Seq<char>) -> Seq<MessageView> {
    if v.statuses.contains_key(jid) {
        v.statuses[jid]
    } else {
        seq![]
    }
}

fn keep_fresh(list: Vec<StoredMessage>, now: i64) -> (r: Vec<StoredMessage>)
    requires
        now >= i64::MIN + STATUS_LIFETIME,
    ensures
        list_view(r@) == fresh_only(list_view(list@), now),
{
    let ghost all = list_view(list@);
    let n = list.len();
    let mut rest = list;
    let mut out: Vec<StoredMessage> = Vec::new();
    let mut i: usize = 0;
    while i < n
        invariant
            n == all.len(),
            now >= i64::MIN + STATUS_LIFETIME,
            i <= n,
            list_view(rest@) == all.skip(i as int),
            list_view(out@) == fresh_only(all.take(i as int), now),
        decreases n - i,
    {
        assert(list_view(rest@).len() == n - i);
        let ghost rb = rest@;
        let m = rest.remove(0);
        proof {
            lemma_list_view_front(rb);
            assert(all.skip(i as int)[0] == all[i as int]);
            assert(all.skip(i as int).skip(1) =~= all.skip(i + 1));
            assert(all.take(i + 1).drop_last() =~= all.take(i as int));
            assert(all.take(i + 1).last() == all[i as int]);
        }
        if m.timestamp > now - STATUS_LIFETIME {
            let ghost ob = out@;
            let ghost mv = m@;
            out.push(m);
            assert(list_view(out@) =~= list_view(ob).push(mv));
        }
        i = i + 1;
    }
    assert(all.take(n as int) =~= all);
    out
}

impl Store {
    /// Adds a status update from its author (its jid) while it is still up;
    /// false when it is too old or already here.
    pub fn add_status(&mut self, entry: StoredMessage, now: i64) -> (r: bool)
        requires
            now >= i64::MIN + STATUS_LIFETIME,
        ensures
            ({
                let j = entry@.jid;
                let m = MessageView { sender_jid: j, ..entry@ };
                &&& r == (is_fresh(entry@.timestamp, now) && !ids_of(status_list(old(self)@, j)).contains(entry@.id))
                &&& r ==> final(self)@ == (StoreView {
                    statuses: old(self)@.statuses.insert(j, by_time(status_list(old(self)@, j).push(m))),
                    statuses_dirty: true,
                    ..old(self)@
                })
                &&& !r ==> final(self)@ == old(self)@
            }),
    {
        if !(entry.timestamp > now - STATUS_LIFETIME) {
            return false;
        }
        let ghost v = self@;
        let author = copy_text(&entry.jid);
        let mut entry = entry;
        entry.sender_jid = copy_text(&author);
        let list = match self.statuses.remove(author.as_str()) {
            Some(l) => l,
            None => Vec::new(),
        };
        assert(list_view(list@) == status_list(v, author@));
        if has_id(&list, entry.id.as_str()) {
            self.statuses.insert(author, list);
            assert(self@.statuses =~= v.statuses);
            return false;
        }
        let ghost lb = list@;
        let ghost mv = entry@;
        let mut list = list;
        list.push(entry);
        assert(list_view(list@) =~= list_view(lb).push(mv));
        let sorted = sort_by_time(list);
        let ghost sv = list_view(sorted@);
        self.statuses.insert(author, sorted);
        self.statuses_dirty = true;
        assert(self@.statuses =~= v.statuses.insert(entry@.jid, sv));
        true
    }

    /// Drops the status updates no longer up at `now`, and the authors left
    /// with none.
    pub fn prune_statuses(&mut self, now: i64)
        requires
            now >= i64::MIN + STATUS_LIFETIME,
        ensures
            final(self)@ == (StoreView { statuses: pruned(old(self)@.statuses, now), ..old(self)@ }),
    {
        let ghost v = self@;
        let ghost orig = v.statuses;
        let n = self.statuses.len();
        let mut keys: Vec<String> = Vec::new();
        let mut i: usize = 0;
        while i < n
            invariant
                n == self.statuses.keys().len(),
                i <= n,
                keys@.map_values(|k: String| k@) == self.statuses.keys().take(i as int),
            decreases n - i,
        {
            let ghost kb = keys@;
            let k = copy_text(self.statuses.key_at(i));
            let ghost kv = k@;
            keys.push(k);
            assert(keys@.map_values(|k: String| k@) =~= kb.map_values(|k: String| k@).push(kv));
            assert(self.statuses.keys().take(i + 1) =~= self.statuses.keys().take(i as int).push(kv));
            i = i + 1;
        }
        let ghost ks = self.statuses.keys();
        assert(ks.take(n as int) =~= ks);
        assert(keys@.map_values(|k: String| k@) == ks);
        let _ = self.statuses.len();
        assert(forall|i: int| 0 <= i < ks.len() ==> orig.contains_key(#[trigger] ks[i]));
        let mut j: usize = 0;
        while j < n
            invariant
                n == keys@.len(),
                ks == keys@.map_values(|k: String| k@),
                ks.no_duplicates(),
                forall|i: int| 0 <= i < ks.len() ==> orig.contains_key(#[trigger] ks[i]),
                forall|k: Seq<char>| #[trigger] orig.contains_key(k) ==> ks.contains(k),
                now >= i64::MIN + STATUS_LIFETIME,
                j <= n,
                self@ == (StoreView { statuses: self@.statuses, ..v }),
                self@.statuses == Map::new(
                    |k: Seq<char>| orig.contains_key(k) && (!ks.take(j as int).contains(k) || fresh_only(orig[k], now).len() > 0),
                    |k: Seq<char>| if ks.take(j as int).contains(k) { fresh_only(orig[k], now) } else { orig[k] },
                ),
            decreases n - j,
        {
            let key = &keys[j];
            let ghost kv = key@;
            let ghost before = self@.statuses;
            assert(ks[j as int] == kv);
            assert(!ks.take(j as int).contains(kv)) by {
                if ks.take(j as int).contains(kv) {
                    let w = choose|w: int| 0 <= w < j && ks.take(j as int)[w] == kv;
                    assert(ks[w] == kv);
                }
            }
            assert(before.contains_key(kv) && before[kv] == orig[kv]);
            let ghost fr = fresh_only(orig[kv], now);
            let removed = self.statuses.remove(key.as_str());
            assert(self@.statuses =~= before.remove(kv));
            match removed {
                Some(list) => {
                    assert(list_view(list@) == orig[kv]);
                    let kept = keep_fresh(list, now);
                    if kept.len() > 0 {
                        let ghost kept_v = list_view(kept@);
                        self.statuses.insert(copy_text(key), kept);
                        assert(self@.statuses =~= before.remove(kv).insert(kv, kept_v));
                    }
                },
                None => {},
            }
            assert(self@.statuses == if fr.len() > 0 {
                before.remove(kv).insert(kv, fr)
            } else {
                before.remove(kv)
            });
            proof {
                let t0 = ks.take(j as int);
                let t1 = ks.take(j + 1);
                assert(t1 =~= t0.push(kv));
                assert forall|k: Seq<char>| #[trigger] t1.contains(k) == (t0.contains(k) || k == kv) by {
                    if t1.contains(k) && k != kv {
                        let w = choose|w: int| 0 <= w < t1.len() && t1[w] == k;
                        assert(t0[w] == k);
                    }
                    if t0.contains(k) {
                        let w = choose|w: int| 0 <= w < t0.len() && t0[w] == k;
                        assert(t1[w] == k);
                    }
                    assert(t1[j as int] == kv);
                }
                let target = Map::new(
                    |k: Seq<char>| orig.contains_key(k) && (!t1.contains(k) || fresh_only(orig[k], now).len() > 0),
                    |k: Seq<char>| if t1.contains(k) { fresh_only(orig[k], now) } else { orig[k] },
                );
                assert forall|k: Seq<char>| #[trigger] self@.statuses.contains_key(k) == target.contains_key(k) by {
                    if k != kv {
                        assert(t1.contains(k) == t0.contains(k));
                    }
                }
                assert forall|k: Seq<char>| self@.statuses.contains_key(k) implies #[trigger] self@.statuses[k] == target[k] by {
                    if k != kv {
                        assert(t1.contains(k) == t0.contains(k));
                    }
                }
                assert(self@.statuses =~= target);
            }
            j = j + 1;
        }
        proof {
            assert(ks.take(n as int) =~= ks);
            assert(self@.statuses =~= pruned(orig, now));
        }
    }
}

// ---------------------------------------------------------------------------
// Across chats
// ---------------------------------------------------------------------------

/// The lists one after another.
pub open spec fn flatten_lists(ls: Seq<Seq<MessageView>>) -> Seq<MessageView>
    decreases ls.len(),
{
    if ls.len() == 0 {
        seq![]
    } else {
        flatten_lists(ls.drop_last()) + ls.last()
    }
}

/// Every stored message, chat after chat in table order.
pub open spec fn every_message(t: &Table<Vec<StoredMessage>>) -> Seq<MessageView> {
    flatten_lists(t.values().map_values(|v: Vec<StoredMessage>| list_view(v@)))
}

/// `m` placed after every message of `s` that is not older: one step of a
/// stable sort newest first.
pub open spec fn insert_newest(s: Seq<MessageView>, m: MessageView) -> Seq<MessageView>
    decreases s.len(),
{
    if s.len() == 0 || s.last().timestamp >= m.timestamp {
        s.push(m)
    } else {
        insert_newest(s.drop_last(), m).push(s.last())
    }
}

/// The messages stably sorted newest first.
pub open spec fn newest_first(s: Seq<MessageView>) -> Seq<MessageView>
    decreases s.len(),
{
    if s.len() == 0 {
        s
    } else {
        insert_newest(newest_first(s.drop_last()), s.last())
    }
}

/// The GIFs among the messages, in order.
pub open spec fn gifs_of(s: Seq<MessageView>) -> Seq<MessageView>
    decreases s.len(),
{
    if s.len() == 0 {
        seq![]
    } else if s.last().gif {
        gifs_of(s.drop_last()).push(s.last())
    } else {
        gifs_of(s.drop_last())
    }
}

/// At most the first `n` of a sequence.
pub open spec fn first_n<A>(s: Seq<A>, n: nat) -> Seq<A> {
    if s.len() > n {
        s.take(n as int)
    } else {
        s
    }
}

proof fn lemma_insert_newest_at(s: Seq<MessageView>, m: MessageView, p: int)
    requires
        0 <= p <= s.len(),
        forall|k: int| p <= k < s.len() ==> #[trigger] s[k].timestamp < m.timestamp,
        p == 0 || s[p - 1].timestamp >= m.timestamp,
    ensures
        insert_newest(s, m) == s.take(p).push(m) + s.skip(p),
    decreases s.len(),
{
    if s.len() == 0 {
        assert(s.take(p).push(m) + s.skip(p) =~= s.push(m));
    } else if s.last().timestamp >= m.timestamp {
        assert(p == s.len());
        assert(s.take(p).push(m) + s.skip(p) =~= s.push(m));
    } else {
        lemma_insert_newest_at(s.drop_last(), m, p);
        assert(s.drop_last().take(p).push(m) + s.drop_last().skip(p) + seq![s.last()]
            =~= s.take(p).push(m) + s.skip(p));
    }
}

fn insert_newest_exec<'a>(out: &mut Vec<&'a StoredMessage>, m: &'a StoredMessage)
    ensures
        final(out)@.map_values(|x: &StoredMessage| x@) == insert_newest(old(out)@.map_values(|x: &StoredMessage| x@), m@),
{
    let mut p = out.len();
    while p > 0 && out[p - 1].timestamp < m.timestamp
        invariant
            p <= out@.len(),
            forall|k: int| p <= k < out@.len() ==> #[trigger] out@[k].timestamp < m.timestamp,
        decreases p,
    {
        p = p - 1;
    }
    let ghost before = out@.map_values(|x: &StoredMessage| x@);
    proof {
        lemma_insert_newest_at(before, m@, p as int);
    }
    out.insert(p, m);
    assert(out@.map_values(|x: &StoredMessage| x@) =~= before.take(p as int).push(m@) + before.skip(p as int));
}

/// A message that can anchor a history fetch: it has a time and its
/// protobuf.
pub open spec fn anchors(m: MessageView) -> bool {
    m.timestamp > 0 && m.raw is Some
}

impl Store {
    /// Every stored message, chat after chat in table order.
    pub fn all_messages(&self) -> (r: Vec<&StoredMessage>)
        ensures
            r@.map_values(|m: &StoredMessage| m@) == every_message(&self.messages),
    {
        let ghost ls = self.messages.values().map_values(|v: Vec<StoredMessage>| list_view(v@));
        let n = self.messages.len();
        let mut out: Vec<&StoredMessage> = Vec::new();
        let mut i: usize = 0;
        while i < n
            invariant
                n == self.messages.values().len(),
                n == self.messages.keys().len(),
                ls == self.messages.values().map_values(|v: Vec<StoredMessage>| list_view(v@)),
                i <= n,
                out@.map_values(|m: &StoredMessage| m@) == flatten_lists(ls.take(i as int)),
            decreases n - i,
        {
            let list = self.messages.value_at(i);
            let ghost base = out@.map_values(|m: &StoredMessage| m@);
            let ln = list.len();
            let mut j: usize = 0;
            while j < ln
                invariant
                    ln == list@.len(),
                    j <= ln,
                    out@.map_values(|m: &StoredMessage| m@) == base + list_view(list@).take(j as int),
                decreases ln - j,
            {
                let ghost ob = out@;
                out.push(&list[j]);
                assert(out@.map_values(|m: &StoredMessage| m@) =~= ob.map_values(|m: &StoredMessage| m@).push(list@[j as int]@));
                assert(list_view(list@).take(j + 1) =~= list_view(list@).take(j as int).push(list@[j as int]@));
                j = j + 1;
            }
            assert(list_view(list@).take(ln as int) =~= list_view(list@));
            assert(ls.take(i + 1).drop_last() =~= ls.take(i as int));
            assert(ls[i as int] == list_view(list@));
            i = i + 1;
        }
        assert(ls.take(n as int) =~= ls);
        out
    }

    /// The most recent GIFs across chats for the picker, newest first.
    pub fn recent_gifs(&self, limit: usize) -> (r: Vec<&StoredMessage>)
        ensures
            r@.map_values(|m: &StoredMessage| m@) == first_n(newest_first(gifs_of(every_message(&self.messages))), limit as nat),
    {
        let all = self.all_messages();
        let ghost av = every_message(&self.messages);
        let n = all.len();
        let mut out: Vec<&StoredMessage> = Vec::new();
        let mut i: usize = 0;
        while i < n
            invariant
                n == all@.len(),
                av == all@.map_values(|m: &StoredMessage| m@),
                i <= n,
                out@.map_values(|m: &StoredMessage| m@) == newest_first(gifs_of(av.take(i as int))),
            decreases n - i,
        {
            assert(av.take(i + 1).drop_last() =~= av.take(i as int));
            assert(av.take(i + 1).last() == all@[i as int]@);
            if all[i].gif {
                let ghost g = gifs_of(av.take(i as int));
                assert(gifs_of(av.take(i + 1)).drop_last() =~= g);
                insert_newest_exec(&mut out, all[i]);
            }
            i = i + 1;
        }
        assert(av.take(n as int) =~= av);
        let ghost ob = out@;
        out.truncate(limit);
        proof {
            if ob.len() > limit {
                assert(out@.map_values(|m: &StoredMessage| m@) =~= ob.map_values(|m: &StoredMessage| m@).take(limit as int));
            }
        }
        out
    }

    /// The oldest message with a time and its protobuf across chats (the
    /// anchor for fetching older history); the first of several as old.
    pub fn oldest_message(&self) -> (r: Option<&StoredMessage>)
        ensures
            ({
                let s = every_message(&self.messages);
                match r {
                    Some(m) => exists|k: int| 0 <= k < s.len() && s[k] == m@ && anchors(m@)
                        && (forall|j: int| 0 <= j < s.len() && anchors(#[trigger] s[j]) ==> m@.timestamp <= s[j].timestamp)
                        && (forall|j: int| 0 <= j < k && anchors(#[trigger] s[j]) ==> s[j].timestamp > m@.timestamp),
                    None => forall|j: int| 0 <= j < s.len() ==> !anchors(#[trigger] s[j]),
                }
            }),
    {
        let all = self.all_messages();
        let ghost s = every_message(&self.messages);
        let n = all.len();
        let mut best: Option<usize> = None;
        let mut i: usize = 0;
        while i < n
            invariant
                n == all@.len(),
                s == all@.map_values(|m: &StoredMessage| m@),
                i <= n,
                match best {
                    Some(k) => k < i && anchors(s[k as int])
                        && (forall|j: int| 0 <= j < i && anchors(#[trigger] s[j]) ==> s[k as int].timestamp <= s[j].timestamp)
                        && (forall|j: int| 0 <= j < k && anchors(#[trigger] s[j]) ==> s[j].timestamp > s[k as int].timestamp),
                    None => forall|j: int| 0 <= j < i ==> !anchors(#[trigger] s[j]),
                },
            decreases n - i,
        {
            assert(s[i as int] == all@[i as int]@);
            if all[i].timestamp > 0 && all[i].raw.is_some() {
                match best {
                    Some(k) => {
                        assert(s[k as int] == all@[k as int]@);
                        if all[i].timestamp < all[k].timestamp {
                            best = Some(i);
                        }
                    },
                    None => {
                        best = Some(i);
                    },
                }
            }
            i = i + 1;
        }
        match best {
            Some(k) => {
                assert(s[k as int] == all@[k as int]@);
                Some(all[k])
            },
            None => None,
        }
    }
}

// ---------------------------------------------------------------------------
// Incoming messages: who they are from and where they go
// ---------------------------------------------------------------------------

/// The lid and the phone jid among two identities of one peer, when both
/// are there.
pub open spec fn lid_pn_pair(a: Seq<char>, b: Seq<char>) -> Option<(Seq<char>, Seq<char>)> {
    let lid = if ends_with(a, "@lid"@) {
        Some(a)
    } else if ends_with(b, "@lid"@) {
        Some(b)
    } else {
        None
    };
    let pn = if ends_with(a, "@s.whatsapp.net"@) {
        Some(a)
    } else if ends_with(b, "@s.whatsapp.net"@) {
        Some(b)
    } else {
        None
    };
    match (lid, pn) {
        (Some(l), Some(p)) => Some((l, p)),
        _ => None,
    }
}

/// The name a sender gets on its message: the one the store knows, else
/// its readable identity, without variation selectors.
pub open spec fn sender_name_of(v: StoreView, jid: Seq<char>) -> Seq<char> {
    without_selectors(
        match name_for(v, jid) {
            Some(n) => n,
            None => display_id_of(jid),
        },
    )
}

/// Who a live message is from and where it goes, as its event gives it.
pub struct LiveMeta<'a> {
    pub chat: String,
    pub sender: String,
    pub sender_alt: Option<String>,
    pub recipient_alt: Option<String>,
    pub id: &'a str,
    pub from_me: bool,
    pub is_group: bool,
    pub push_name: &'a str,
    pub timestamp: i64,
}

impl Store {
    /// Whether merging `from` into `into` keeps the unread count in range.
    pub fn merge_fits_now(&self, from: &str, into: &str) -> (r: bool)
        ensures
            r == merge_fits(self@, from@, into@),
    {
        match self.chats.get(from) {
            None => true,
            Some(src) => {
                let mut rest_unread: u64 = 0;
                if !str_eq(from, into) {
                    if let Some(d) = self.chats.get(into) {
                        rest_unread = d.unread as u64;
                    }
                }
                proof {
                    let rest = self@.chats.remove(from@);
                    if from@ == into@ {
                        assert(!rest.contains_key(into@));
                    } else {
                        assert(rest.contains_key(into@) == self@.chats.contains_key(into@));
                    }
                }
                (src.unread as u64) + rest_unread <= 0xFFFF_FFFF
            },
        }
    }

    /// Learns a lid-to-phone pair when both identities of one peer appear.
    pub fn learn_pair(&mut self, a: &str, b: &str)
        requires
            lid_pn_pair(a@, b@) matches Some((l, p)) ==> merge_fits(old(self)@, l, p),
        ensures
            match lid_pn_pair(a@, b@) {
                Some((l, p)) => if old(self)@.aliases.contains_key(l) && old(self)@.aliases[l] == p {
                    final(self)@ == old(self)@
                } else {
                    final(self)@ == merged_store(
                        StoreView { aliases: old(self)@.aliases.insert(l, p), ..old(self)@ },
                        l,
                        p,
                    )
                },
                None => final(self)@ == old(self)@,
            },
    {
        let lid = if str_ends_with(a, "@lid") {
            Some(a)
        } else if str_ends_with(b, "@lid") {
            Some(b)
        } else {
            None
        };
        let pn = if str_ends_with(a, "@s.whatsapp.net") {
            Some(a)
        } else if str_ends_with(b, "@s.whatsapp.net") {
            Some(b)
        } else {
            None
        };
        if let (Some(l), Some(p)) = (lid, pn) {
            self.learn_alias(l, p);
        }
    }

    /// The part of filing a live message that the store decides: the chat
    /// it goes to and its sender, resolved through the aliases; the name
    /// it announces is learned; nothing for a chat without a row or a
    /// message without an id. Gives (chat, sender jid, sender name).
    pub fn admit_live(&mut self, meta: &LiveMeta) -> (r: Option<(String, String, String)>)
        ensures
            ({
                let v = old(self)@;
                let j = canon_of(v.aliases, meta.chat@);
                let sj = canon_of(v.aliases, meta.sender@);
                let v1 = if !meta.from_me && meta.push_name@.len() != 0 {
                    StoreView { push_names: v.push_names.insert(sj, meta.push_name@), ..v }
                } else {
                    v
                };
                if !displayable(j) || meta.id@.len() == 0 {
                    r is None && final(self)@ == v
                } else {
                    &&& final(self)@ == v1
                    &&& r matches Some(t) && t.0@ == j && t.1@ == sj && t.2@ == (if meta.from_me {
                        Seq::<char>::empty()
                    } else {
                        sender_name_of(v1, sj)
                    })
                }
            }),
    {
        let jid = self.canon(meta.chat.as_str());
        if !is_displayable_jid(jid.as_str()) || meta.id.is_empty() {
            return None;
        }
        let sender_jid = self.canon(meta.sender.as_str());
        if !meta.from_me && !meta.push_name.is_empty() {
            self.push_names.insert(copy_text(&sender_jid), meta.push_name.to_string());
            assert(self@.push_names =~= old(self)@.push_names.insert(sender_jid@, meta.push_name@));
        }
        let sender = if meta.from_me {
            String::new()
        } else {
            let known = match self.name_for_jid(sender_jid.as_str()) {
                Some(n) => n,
                None => display_id(sender_jid.as_str()),
            };
            clean_text(known.as_str())
        };
        Some((jid, sender_jid, sender))
    }
}

// ---------------------------------------------------------------------------
// Stickers, status authors, counts
// ---------------------------------------------------------------------------

/// The stickers among the messages: the ones we sent, or the starred ones.
pub open spec fn stickers_of(s: Seq<MessageView>, starred: bool) -> Seq<MessageView>
    decreases s.len(),
{
    if s.len() == 0 {
        seq![]
    } else if s.last().sticker && (if starred { s.last().starred } else { s.last().from_me }) {
        stickers_of(s.drop_last(), starred).push(s.last())
    } else {
        stickers_of(s.drop_last(), starred)
    }
}

/// A (key, message) pair after every pair of `s` that is not older.
pub open spec fn insert_keyed(s: Seq<(Seq<char>, MessageView)>, x: (Seq<char>, MessageView)) -> Seq<(Seq<char>, MessageView)>
    decreases s.len(),
{
    if s.len() == 0 || s.last().1.timestamp >= x.1.timestamp {
        s.push(x)
    } else {
        insert_keyed(s.drop_last(), x).push(s.last())
    }
}

/// The pairs stably sorted newest first.
pub open spec fn keyed_newest_first(s: Seq<(Seq<char>, MessageView)>) -> Seq<(Seq<char>, MessageView)>
    decreases s.len(),
{
    if s.len() == 0 {
        s
    } else {
        insert_keyed(keyed_newest_first(s.drop_last()), s.last())
    }
}

/// The messages of the pairs, the first of each key only, at most `limit`.
pub open spec fn distinct_keys(s: Seq<(Seq<char>, MessageView)>, limit: nat) -> Seq<MessageView>
    decreases s.len(),
{
    if s.len() == 0 {
        seq![]
    } else {
        let d = distinct_keys(s.drop_last(), limit);
        let earlier = s.drop_last().map_values(|p: (Seq<char>, MessageView)| p.0);
        if d.len() >= limit || earlier.contains(s.last().0) {
            d
        } else {
            d.push(s.last().1)
        }
    }
}

fn insert_keyed_exec<'a>(out: &mut Vec<(String, &'a StoredMessage)>, x: (String, &'a StoredMessage))
    ensures
        final(out)@.map_values(|p: (String, &StoredMessage)| (p.0@, p.1@)) == insert_keyed(
            old(out)@.map_values(|p: (String, &StoredMessage)| (p.0@, p.1@)),
            (x.0@, x.1@),
        ),
{
    let ghost xv = (x.0@, x.1@);
    let mut p = out.len();
    while p > 0 && out[p - 1].1.timestamp < x.1.timestamp
        invariant
            p <= out@.len(),
            forall|k: int| p <= k < out@.len() ==> #[trigger] out@[k].1.timestamp < x.1.timestamp,
        decreases p,
    {
        p = p - 1;
    }
    let ghost before = out@.map_values(|q: (String, &StoredMessage)| (q.0@, q.1@));
    proof {
        lemma_insert_keyed_at(before, xv, p as int);
    }
    out.insert(p, x);
    assert(out@.map_values(|q: (String, &StoredMessage)| (q.0@, q.1@)) =~= before.take(p as int).push(xv) + before.skip(p as int));
}

proof fn lemma_insert_keyed_at(s: Seq<(Seq<char>, MessageView)>, x: (Seq<char>, MessageView), p: int)
    requires
        0 <= p <= s.len(),
        forall|k: int| p <= k < s.len() ==> #[trigger] s[k].1.timestamp < x.1.timestamp,
        p == 0 || s[p - 1].1.timestamp >= x.1.timestamp,
    ensures
        insert_keyed(s, x) == s.take(p).push(x) + s.skip(p),
    decreases s.len(),
{
    if s.len() == 0 {
        assert(s.take(p).push(x) + s.skip(p) =~= s.push(x));
    } else if s.last().1.timestamp >= x.1.timestamp {
        assert(p == s.len());
        assert(s.take(p).push(x) + s.skip(p) =~= s.push(x));
    } else {
        lemma_insert_keyed_at(s.drop_last(), x, p);
        assert(s.drop_last().take(p).push(x) + s.drop_last().skip(p) + seq![s.last()]
            =~= s.take(p).push(x) + s.skip(p));
    }
}

/// What tells two stickers apart in the picker: the base64 of the SHA-256
/// their message carries, else the message's own id.
pub fn sticker_identity(sha: Option<&[u8]>, id: &str) -> (r: String)
    requires
        sha is Some ==> sha.unwrap()@.len() <= usize::MAX / 2,
    ensures
        sha is Some ==> r@ == b64_text(sha.unwrap()@),
        sha is None ==> r@ == id@,
{
    match sha {
        Some(s) => b64_encode(s),
        None => id.to_owned(),
    }
}

/// Newest first, one message per key, at most `limit`: the sticker picker
/// shows each sticker once (the key stands for its content).
pub fn newest_distinct<'a>(items: Vec<(String, &'a StoredMessage)>, limit: usize) -> (r: Vec<&'a StoredMessage>)
    ensures
        r@.map_values(|m: &StoredMessage| m@) == distinct_keys(
            keyed_newest_first(items@.map_values(|p: (String, &StoredMessage)| (p.0@, p.1@))),
            limit as nat,
        ),
{
    let ghost all = items@.map_values(|p: (String, &StoredMessage)| (p.0@, p.1@));
    let n = items.len();
    let mut rest = items;
    let mut sorted: Vec<(String, &StoredMessage)> = Vec::new();
    let mut i: usize = 0;
    while i < n
        invariant
            n == all.len(),
            i <= n,
            rest@.map_values(|p: (String, &StoredMessage)| (p.0@, p.1@)) == all.skip(i as int),
            sorted@.map_values(|p: (String, &StoredMessage)| (p.0@, p.1@)) == keyed_newest_first(all.take(i as int)),
        decreases n - i,
    {
        let ghost rb = rest@;
        assert(rb.map_values(|p: (String, &StoredMessage)| (p.0@, p.1@)).len() == n - i);
        let x = rest.remove(0);
        proof {
            let rv = rb.map_values(|p: (String, &StoredMessage)| (p.0@, p.1@));
            assert(rv[0] == (x.0@, x.1@));
            assert(all.skip(i as int)[0] == all[i as int]);
            assert(rest@.map_values(|p: (String, &StoredMessage)| (p.0@, p.1@)) =~= rv.skip(1));
            assert(all.skip(i as int).skip(1) =~= all.skip(i + 1));
            assert(all.take(i + 1).drop_last() =~= all.take(i as int));
        }
        insert_keyed_exec(&mut sorted, x);
        i = i + 1;
    }
    assert(all.take(n as int) =~= all);
    let ghost sv = keyed_newest_first(all);
    let m = sorted.len();
    let mut seen = KeySet::new();
    let mut out: Vec<&StoredMessage> = Vec::new();
    let mut j: usize = 0;
    while j < m
        invariant
            m == sorted@.len(),
            sv == sorted@.map_values(|p: (String, &StoredMessage)| (p.0@, p.1@)),
            j <= m,
            out@.map_values(|q: &StoredMessage| q@) == distinct_keys(sv.take(j as int), limit as nat),
            forall|k: Seq<char>| #[trigger] seen@.contains(k) <==> sv.take(j as int).map_values(|p: (Seq<char>, MessageView)| p.0).contains(k),
        decreases m - j,
    {
        let ghost t0 = sv.take(j as int);
        let ghost t1 = sv.take(j + 1);
        proof {
            assert(t1.drop_last() =~= t0);
            assert(t1.last() == sv[j as int]);
            assert(sv[j as int] == (sorted@[j as int].0@, sorted@[j as int].1@));
        }
        let fresh = !seen.contains(sorted[j].0.as_str());
        if out.len() < limit && fresh {
            let ghost ob = out@;
            out.push(sorted[j].1);
            assert(out@.map_values(|q: &StoredMessage| q@) =~= ob.map_values(|q: &StoredMessage| q@).push(sorted@[j as int].1@));
        }
        seen.insert(copy_text(&sorted[j].0));
        proof {
            let k0 = t0.map_values(|p: (Seq<char>, MessageView)| p.0);
            let k1 = t1.map_values(|p: (Seq<char>, MessageView)| p.0);
            assert(k1 =~= k0.push(sv[j as int].0));
            assert forall|k: Seq<char>| #[trigger] seen@.contains(k) <==> k1.contains(k) by {
                if k0.contains(k) {
                    let w = choose|w: int| 0 <= w < k0.len() && k0[w] == k;
                    assert(k1[w] == k);
                }
                if k1.contains(k) && k != sv[j as int].0 {
                    let w = choose|w: int| 0 <= w < k1.len() && k1[w] == k;
                    assert(k0[w] == k);
                }
                assert(k1[j as int] == sv[j as int].0);
            }
        }
        j = j + 1;
    }
    assert(sv.take(m as int) =~= sv);
    out
}

impl Store {
    /// Stickers across chats: the starred ones, or else the ones we sent.
    pub fn stickers(&self, starred: bool) -> (r: Vec<&StoredMessage>)
        ensures
            r@.map_values(|m: &StoredMessage| m@) == stickers_of(every_message(&self.messages), starred),
    {
        let all = self.all_messages();
        let ghost av = every_message(&self.messages);
        let n = all.len();
        let mut out: Vec<&StoredMessage> = Vec::new();
        let mut i: usize = 0;
        while i < n
            invariant
                n == all@.len(),
                av == all@.map_values(|m: &StoredMessage| m@),
                i <= n,
                out@.map_values(|m: &StoredMessage| m@) == stickers_of(av.take(i as int), starred),
            decreases n - i,
        {
            assert(av.take(i + 1).drop_last() =~= av.take(i as int));
            assert(av.take(i + 1).last() == all@[i as int]@);
            let m = all[i];
            if m.sticker && (if starred { m.starred } else { m.from_me }) {
                let ghost ob = out@;
                out.push(m);
                assert(out@.map_values(|x: &StoredMessage| x@) =~= ob.map_values(|x: &StoredMessage| x@).push(m@));
            }
            i = i + 1;
        }
        assert(av.take(n as int) =~= av);
        out
    }
}

/// The rows of the status strip, (author, latest update, number of
/// updates), for authors with updates, in table order.
pub open spec fn author_rows(keys: Seq<Seq<char>>, lists: Seq<Seq<MessageView>>) -> Seq<(Seq<char>, MessageView, nat)>
    decreases keys.len(),
{
    if keys.len() == 0 || lists.len() == 0 {
        seq![]
    } else {
        let rest = author_rows(keys.drop_last(), lists.drop_last());
        if lists.last().len() > 0 {
            rest.push((keys.last(), lists.last().last(), lists.last().len()))
        } else {
            rest
        }
    }
}

/// A row after every row of `s` whose latest update is not older.
pub open spec fn insert_row(s: Seq<(Seq<char>, MessageView, nat)>, x: (Seq<char>, MessageView, nat)) -> Seq<(Seq<char>, MessageView, nat)>
    decreases s.len(),
{
    if s.len() == 0 || s.last().1.timestamp >= x.1.timestamp {
        s.push(x)
    } else {
        insert_row(s.drop_last(), x).push(s.last())
    }
}

/// The rows stably sorted by their latest update, newest first.
pub open spec fn rows_newest_first(s: Seq<(Seq<char>, MessageView, nat)>) -> Seq<(Seq<char>, MessageView, nat)>
    decreases s.len(),
{
    if s.len() == 0 {
        s
    } else {
        insert_row(rows_newest_first(s.drop_last()), s.last())
    }
}

proof fn lemma_insert_row_at(s: Seq<(Seq<char>, MessageView, nat)>, x: (Seq<char>, MessageView, nat), p: int)
    requires
        0 <= p <= s.len(),
        forall|k: int| p <= k < s.len() ==> #[trigger] s[k].1.timestamp < x.1.timestamp,
        p == 0 || s[p - 1].1.timestamp >= x.1.timestamp,
    ensures
        insert_row(s, x) == s.take(p).push(x) + s.skip(p),
    decreases s.len(),
{
    if s.len() == 0 {
        assert(s.take(p).push(x) + s.skip(p) =~= s.push(x));
    } else if s.last().1.timestamp >= x.1.timestamp {
        assert(p == s.len());
        assert(s.take(p).push(x) + s.skip(p) =~= s.push(x));
    } else {
        lemma_insert_row_at(s.drop_last(), x, p);
        assert(s.drop_last().take(p).push(x) + s.drop_last().skip(p) + seq![s.last()]
            =~= s.take(p).push(x) + s.skip(p));
    }
}

/// The rows as plain values.
pub open spec fn row_views(v: Seq<(String, StoredMessage, usize)>) -> Seq<(Seq<char>, MessageView, nat)> {
    v.map_values(|r: (String, StoredMessage, usize)| (r.0@, r.1@, r.2 as nat))
}

impl Store {
    /// The status strip at `now`: updates no longer up are dropped first,
    /// then one row per author, newest update first.
    pub fn status_authors(&mut self, now: i64) -> (r: Vec<(String, StoredMessage, usize)>)
        requires
            now >= i64::MIN + STATUS_LIFETIME,
        ensures
            final(self)@ == (StoreView { statuses: pruned(old(self)@.statuses, now), ..old(self)@ }),
            row_views(r@) == rows_newest_first(author_rows(
                final(self).statuses.keys(),
                final(self).statuses.values().map_values(|v: Vec<StoredMessage>| list_view(v@)),
            )),
    {
        self.prune_statuses(now);
        let n = self.statuses.len();
        let ghost ks = self.statuses.keys();
        let ghost ls = self.statuses.values().map_values(|v: Vec<StoredMessage>| list_view(v@));
        let mut out: Vec<(String, StoredMessage, usize)> = Vec::new();
        let mut i: usize = 0;
        while i < n
            invariant
                n == self.statuses.keys().len(),
                n == self.statuses.values().len(),
                ks == self.statuses.keys(),
                ls == self.statuses.values().map_values(|v: Vec<StoredMessage>| list_view(v@)),
                i <= n,
                row_views(out@) == rows_newest_first(author_rows(ks.take(i as int), ls.take(i as int))),
            decreases n - i,
        {
            let list = self.statuses.value_at(i);
            let k = self.statuses.key_at(i);
            proof {
                assert(ks.take(i + 1).drop_last() =~= ks.take(i as int));
                assert(ls.take(i + 1).drop_last() =~= ls.take(i as int));
                assert(ls[i as int] == list_view(list@));
            }
            if list.len() > 0 {
                let last = list[list.len() - 1].copy();
                let row = (copy_text(k), last, list.len());
                let ghost xv = (row.0@, row.1@, row.2 as nat);
                assert(xv == (ks[i as int], ls[i as int].last(), ls[i as int].len()));
                let mut p = out.len();
                while p > 0 && out[p - 1].1.timestamp < row.1.timestamp
                    invariant
                        p <= out@.len(),
                        forall|q: int| p <= q < out@.len() ==> #[trigger] out@[q].1.timestamp < row.1.timestamp,
                    decreases p,
                {
                    p = p - 1;
                }
                let ghost before = row_views(out@);
                proof {
                    lemma_insert_row_at(before, xv, p as int);
                }
                out.insert(p, row);
                assert(row_views(out@) =~= before.take(p as int).push(xv) + before.skip(p as int));
                proof {
                    let ar = author_rows(ks.take(i as int), ls.take(i as int));
                    assert(author_rows(ks.take(i + 1), ls.take(i + 1)) == ar.push(xv));
                    assert(ar.push(xv).drop_last() =~= ar);
                    assert(ar.push(xv).last() == xv);
                }
            } else {
                proof {
                    let ar = author_rows(ks.take(i as int), ls.take(i as int));
                    assert(author_rows(ks.take(i + 1), ls.take(i + 1)) == ar);
                }
            }
            i = i + 1;
        }
        assert(ks.take(n as int) =~= ks);
        assert(ls.take(n as int) =~= ls);
        out
    }

    /// How many messages the store holds (which fits in a counter).
    pub fn total_messages(&self) -> (r: usize)
        requires
            flatten_lists(self.messages.values().map_values(|v: Vec<StoredMessage>| list_view(v@))).len()
                <= usize::MAX,
        ensures
            r == every_message(&self.messages).len(),
    {
        let ghost ls = self.messages.values().map_values(|v: Vec<StoredMessage>| list_view(v@));
        let n = self.messages.len();
        let mut total: usize = 0;
        let mut i: usize = 0;
        while i < n
            invariant
                n == self.messages.keys().len(),
                n == self.messages.values().len(),
                ls == self.messages.values().map_values(|v: Vec<StoredMessage>| list_view(v@)),
                flatten_lists(ls).len() <= usize::MAX,
                i <= n,
                total == flatten_lists(ls.take(i as int)).len(),
            decreases n - i,
        {
            proof {
                assert(ls.take(i + 1).drop_last() =~= ls.take(i as int));
                assert(ls[i as int] == list_view(self.messages.values()[i as int]@));
                lemma_flatten_prefix_len(ls, i + 1);
            }
            total = total + self.messages.value_at(i).len();
            i = i + 1;
        }
        assert(ls.take(n as int) =~= ls);
        total
    }
}

proof fn lemma_flatten_prefix_len(ls: Seq<Seq<MessageView>>, k: int)
    requires
        0 <= k <= ls.len(),
    ensures
        flatten_lists(ls.take(k)).len() <= flatten_lists(ls).len(),
    decreases ls.len() - k,
{
    if k < ls.len() {
        lemma_flatten_prefix_len(ls, k + 1);
        assert(ls.take(k + 1).drop_last() =~= ls.take(k));
    } else {
        assert(ls.take(k) =~= ls);
    }
}

// ---------------------------------------------------------------------------
// Laws
// ---------------------------------------------------------------------------

/// The messages are in time order.
pub open spec fn in_time_order(s: Seq<MessageView>) -> bool {
    forall|i: int, j: int| 0 <= i < j < s.len() ==> (#[trigger] s[i]).timestamp <= (#[trigger] s[j]).timestamp
}

proof fn lemma_insert_by_time_sorted(s: Seq<MessageView>, m: MessageView)
    requires
        in_time_order(s),
    ensures
        in_time_order(insert_by_time(s, m)),
        insert_by_time(s, m).to_multiset() == s.to_multiset().insert(m),
    decreases s.len(),
{
    broadcast use vstd::seq_lib::group_to_multiset_ensures;
    if s.len() == 0 || s.last().timestamp <= m.timestamp {
        assert(in_time_order(s.push(m))) by {
            assert forall|i: int, j: int| 0 <= i < j < s.push(m).len() implies (#[trigger] s.push(m)[i]).timestamp
                <= (#[trigger] s.push(m)[j]).timestamp by {
                if j == s.len() && i < s.len() - 1 {
                    assert(s[i].timestamp <= s[s.len() - 1].timestamp);
                }
            }
        }
    } else {
        let d = s.drop_last();
        assert(in_time_order(d)) by {
            assert forall|i: int, j: int| 0 <= i < j < d.len() implies (#[trigger] d[i]).timestamp
                <= (#[trigger] d[j]).timestamp by {
                assert(d[i] == s[i] && d[j] == s[j]);
            }
        }
        lemma_insert_by_time_sorted(d, m);
        let t = insert_by_time(d, m);
        let r = t.push(s.last());
        assert(d.to_multiset().insert(s.last()) =~= s.to_multiset()) by {
            assert(s =~= d.push(s.last()));
        }
        assert forall|i: int, j: int| 0 <= i < j < r.len() implies (#[trigger] r[i]).timestamp
            <= (#[trigger] r[j]).timestamp by {
            if j == r.len() - 1 && i < t.len() {
                assert(t.to_multiset().count(t[i]) > 0);
                if t[i] != m {
                    assert(d.to_multiset().count(t[i]) > 0);
                    let k = choose|k: int| 0 <= k < d.len() && d[k] == t[i];
                    assert(s[k].timestamp <= s[s.len() - 1].timestamp);
                }
            }
        }
    }
}

proof fn lemma_by_time_sorted(s: Seq<MessageView>)
    ensures
        in_time_order(by_time(s)),
        by_time(s).to_multiset() == s.to_multiset(),
    decreases s.len(),
{
    broadcast use vstd::seq_lib::group_to_multiset_ensures;
    if s.len() > 0 {
        lemma_by_time_sorted(s.drop_last());
        lemma_insert_by_time_sorted(by_time(s.drop_last()), s.last());
        assert(s =~= s.drop_last().push(s.last()));
    } else {
        assert(s.to_multiset() =~= vstd::multiset::Multiset::empty());
    }
}

/// After a message arrives, its chat's messages are in time order, and
/// while the chat held fewer than `MEMORY_MESSAGES` the message is among
/// them, one more than before.
pub proof fn law_added_message_in_time_order(v: StoreView, m: MessageView, locale: Locale)
    ensures
        in_time_order(added_store(v, m, locale).messages[m.jid]),
        list_of(v, m.jid).len() < MEMORY_MESSAGES ==> {
            let l = added_store(v, m, locale).messages[m.jid];
            &&& l.len() == list_of(v, m.jid).len() + 1
            &&& ids_of(l).contains(m.id)
        },
{
    broadcast use vstd::seq_lib::group_to_multiset_ensures;
    let mm = MessageView { starred: m.starred || v.starred_ids.contains(m.id), ..m };
    let s = by_time(list_of(v, m.jid).push(mm));
    lemma_by_time_sorted(list_of(v, m.jid).push(mm));
    let l = capped(s);
    assert(added_store(v, m, locale).messages[m.jid] == l);
    assert(in_time_order(l)) by {
        if s.len() > MEMORY_MESSAGES {
            let off = s.len() - MEMORY_MESSAGES;
            assert forall|i: int, j: int| 0 <= i < j < l.len() implies (#[trigger] l[i]).timestamp
                <= (#[trigger] l[j]).timestamp by {
                assert(l[i] == s[i + off] && l[j] == s[j + off]);
            }
        }
    }
    if list_of(v, m.jid).len() < MEMORY_MESSAGES {
        let input = list_of(v, m.jid).push(mm);
        vstd::seq_lib::to_multiset_len(s);
        vstd::seq_lib::to_multiset_len(input);
        assert(s.len() == input.len());
        assert(l == s);
        assert(input[input.len() - 1] == mm);
        assert(input.to_multiset().count(mm) > 0);
        assert(s.to_multiset().count(mm) > 0);
        let k = choose|k: int| 0 <= k < s.len() && s[k] == mm;
        assert(ids_of(l)[k] == m.id);
    }
}

/// Once two jids are known to be one contact, the old one keeps no chat
/// and no messages, and is marked for deletion on disk.
pub proof fn law_merge_leaves_nothing_behind(v: StoreView, from: Seq<char>, into: Seq<char>)
    requires
        from != into,
    ensures
        !merged_store(v, from, into).chats.contains_key(from),
        !merged_store(v, from, into).messages.contains_key(from) || !v.messages.contains_key(from)
            && v.messages.contains_key(from) == merged_store(v, from, into).messages.contains_key(from),
        v.messages.contains_key(from) ==> !merged_store(v, from, into).messages.contains_key(from),
        merged_store(v, from, into).deleted_jids.contains(from),
        v.chats.contains_key(from) ==> merged_store(v, from, into).chats.contains_key(into),
{
}

/// Merging one contact's chat into the other's sums their unread counts,
/// keeps the later time and the later pin, and keeps a chat archived or
/// mentioned if either was; the merged messages are the destination's and
/// those moved over, in time order.
pub proof fn law_merge_combines_both_chats(v: StoreView, from: Seq<char>, into: Seq<char>)
    requires
        from != into,
        merge_fits(v, from, into),
    ensures
        v.chats.contains_key(from) ==> {
            let m = merged_store(v, from, into).chats[into];
            let src = v.chats[from];
            let had = v.chats.contains_key(into);
            let dst = v.chats[into];
            &&& m.unread == src.unread + (if had { dst.unread as int } else { 0 })
            &&& m.timestamp == (if had && dst.timestamp > src.timestamp { dst.timestamp }
                else if !had && src.timestamp < 0 { 0 } else { src.timestamp })
            &&& m.pinned == (if had && dst.pinned > src.pinned { dst.pinned }
                else if !had && src.pinned < 0 { 0 } else { src.pinned })
            &&& m.archived == (src.archived || (had && dst.archived))
            &&& m.mentioned == (src.mentioned || (had && dst.mentioned))
        },
        v.messages.contains_key(from) ==> {
            let ms = merged_store(v, from, into).messages[into];
            let dst = if v.messages.contains_key(into) { v.messages[into] } else { seq![] };
            &&& in_time_order(ms)
            &&& ms.to_multiset() == (dst + moved(v.messages[from], ids_of(dst), into)).to_multiset()
        },
{
    if v.chats.contains_key(from) {
        let rest = v.chats.remove(from);
        assert(rest.contains_key(into) == v.chats.contains_key(into));
        if rest.contains_key(into) {
            assert(rest[into] == v.chats[into]);
        }
    }
    if v.messages.contains_key(from) {
        let rest = v.messages.remove(from);
        assert(rest.contains_key(into) == v.messages.contains_key(into));
        let dst = if rest.contains_key(into) { rest[into] } else { seq![] };
        lemma_by_time_sorted(dst + moved(v.messages[from], ids_of(dst), into));
    }
}

/// The store after learning that `lid` is `pn`: the alias recorded, then
/// the two contacts merged (what `learn_alias` makes when it learns
/// something new).
pub open spec fn alias_learned(v: StoreView, lid: Seq<char>, pn: Seq<char>) -> StoreView {
    merged_store(StoreView { aliases: v.aliases.insert(lid, pn), ..v }, lid, pn)
}

/// Once an alias is learned, `lid` reads as `pn` and the alias is on
/// record, so learning it again finds it known: by its contract the second
/// `learn_alias` answers false and leaves the store as it is.
pub proof fn law_learning_an_alias_twice_changes_nothing(v: StoreView, lid: Seq<char>, pn: Seq<char>)
    ensures
        alias_learned(v, lid, pn).aliases.contains_key(lid),
        alias_learned(v, lid, pn).aliases[lid] == pn,
        canon_of(alias_learned(v, lid, pn).aliases, lid) == pn,
{
}

/// A text without "@" mentions no one: naming leaves it as it is.
pub proof fn law_named_without_at_is_unchanged(v: StoreView, s: Seq<char>, i: int)
    requires
        0 <= i <= s.len(),
        forall|k: int| 0 <= k < s.len() ==> s[k] != '@',
    ensures
        named_from(v, s, i) == s.skip(i),
    decreases s.len() - i,
{
    if i < s.len() {
        law_named_without_at_is_unchanged(v, s, i + 1);
        assert(seq![s[i]] + s.skip(i + 1) =~= s.skip(i));
    } else {
        assert(s.skip(i) =~= Seq::<char>::empty());
    }
}

} // verus!
