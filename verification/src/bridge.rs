//! What the chat view shows of a message: who sent it and where a run of
//! bubbles from one sender starts, the avatar of a person without a
//! picture, the host a link card names, and the rest of a row's text.
use vstd::prelude::*;
use crate::text::{chars_of, string_of, trimmed, trim_of, ends_with, str_eq, str_ends_with, push_all};
use crate::unicode::{uppercase, uppercase_of};
use crate::i18n::{Locale, t, translated};
use crate::store::{
    Store, StoreView, StoredMessage, MessageView, MessageKind, canon_of, chat_name_of, is_saved_in,
    display_id, display_id_of, format_number, formatted_number, ticks_for, ticks_of, named_from, reaction_summary,
    reaction_line,
};
use crate::wa_map::strip_all;

verus! {

broadcast use vstd::string::group_string_axioms;

/// The letter an avatar without a picture shows: the name's first
/// character after trimming, in capitals; "?" for an empty name.
pub open spec fn initial_text(name: Seq<char>) -> Seq<char> {
    let t = trimmed(name);
    if t.len() == 0 {
        seq!['?']
    } else {
        uppercase(t[0])
    }
}

pub fn initial_of(name: &str) -> (r: String)
    ensures
        r@ == initial_text(name@),
{
    let v = chars_of(name);
    let t = trim_of(&v);
    if t.len() == 0 {
        let mut q: Vec<char> = Vec::new();
        q.push('?');
        return string_of(&q);
    }
    string_of(&uppercase_of(t[0]))
}

/// The UTF-16 code units of one character.
pub open spec fn utf16_units(c: char) -> Seq<int> {
    let u = c as u32 as int;
    if u < 0x10000 {
        seq![u]
    } else {
        seq![0xD800 + (u - 0x10000) / 0x400, 0xDC00 + (u - 0x10000) % 0x400]
    }
}

/// The sum of the UTF-16 code units of a text.
pub open spec fn utf16_sum(s: Seq<char>) -> int
    decreases s.len(),
{
    if s.len() == 0 {
        0
    } else {
        let us = utf16_units(s.last());
        utf16_sum(s.drop_last()) + if us.len() == 1 {
            us[0]
        } else {
            us[0] + us[1]
        }
    }
}

/// A sum as a 32-bit signed integer that wrapped around.
pub open spec fn wrapped_i32(x: int) -> int {
    let u = x % 0x1_0000_0000;
    if u >= 0x8000_0000 {
        u - 0x1_0000_0000
    } else {
        u
    }
}

/// Which of the eight avatar colors a jid gets: the wrapped sum of its
/// UTF-16 code units, made positive, modulo 8.
pub open spec fn color_index(jid: Seq<char>) -> int {
    let h = wrapped_i32(utf16_sum(jid));
    (if h < 0 {
        -h
    } else {
        h
    }) % 8
}

proof fn lemma_utf16_sum_nonneg(s: Seq<char>)
    ensures
        utf16_sum(s) >= 0,
    decreases s.len(),
{
    if s.len() > 0 {
        lemma_utf16_sum_nonneg(s.drop_last());
    }
}

/// The code units of a text summed as a 32-bit signed integer that wraps.
fn wrapped_utf16_sum(jid: &str) -> (h: i64)
    ensures
        h == wrapped_i32(utf16_sum(jid@)),
{
    let v = chars_of(jid);
    let n = v.len();
    let mut acc: u64 = 0;
    let mut i: usize = 0;
    while i < n
        invariant
            n == v@.len(),
            i <= n,
            acc < 0x1_0000_0000,
            acc == utf16_sum(v@.take(i as int)) % 0x1_0000_0000,
        decreases n - i,
    {
        let u = v[i] as u32 as u64;
        let add: u64 = if u < 0x10000 {
            u
        } else {
            (0xD800 + (u - 0x10000) / 0x400) + (0xDC00 + (u - 0x10000) % 0x400)
        };
        proof {
            let s1 = v@.take(i + 1);
            assert(s1.drop_last() =~= v@.take(i as int));
            assert(s1.last() == v@[i as int]);
            lemma_utf16_sum_nonneg(v@.take(i as int));
            let prev = utf16_sum(v@.take(i as int));
            assert(utf16_sum(s1) == prev + add);
            assert((acc + add) % 0x1_0000_0000 == (prev + add) % 0x1_0000_0000) by (nonlinear_arith)
                requires
                    acc == prev % 0x1_0000_0000,
                    prev >= 0,
                    add >= 0,
            ;
        }
        acc = (acc + add) % 0x1_0000_0000;
        i = i + 1;
    }
    assert(v@.take(n as int) =~= v@);
    if acc >= 0x8000_0000 {
        acc as i64 - 0x1_0000_0000
    } else {
        acc as i64
    }
}

/// The avatar color of a jid (whose code units do not sum to exactly the
/// one 32-bit value that has no positive counterpart).
pub fn color_idx_of(jid: &str) -> (r: i32)
    requires
        wrapped_i32(utf16_sum(jid@)) != -0x8000_0000,
    ensures
        r == color_index(jid@),
{
    let h = wrapped_utf16_sum(jid);
    let a: i64 = if h < 0 {
        -h
    } else {
        h
    };
    (a % 8) as i32
}

/// The avatar color of a jid; none for the one sum of code units whose
/// absolute value a 32-bit integer cannot hold.
pub open spec fn avatar_color_of(jid: Seq<char>) -> Option<i32> {
    if wrapped_i32(utf16_sum(jid)) == -0x8000_0000 {
        None
    } else {
        Some(color_index(jid) as i32)
    }
}

/// The avatar color of any jid, where the sum allows one.
pub fn avatar_color(jid: &str) -> (r: Option<i32>)
    ensures
        r == avatar_color_of(jid@),
{
    let h = wrapped_utf16_sum(jid);
    if h == -0x8000_0000 {
        None
    } else {
        Some(color_idx_of(jid))
    }
}

/// A bubble starts a run (and shows who sent it) after a bubble from the
/// other side, after another sender in a group, or after a pause of more
/// than five minutes; the first bubble always does.
pub open spec fn starts_run(prev: Option<MessageView>, m: MessageView, group: bool) -> bool {
    match prev {
        None => true,
        Some(p) => p.from_me != m.from_me || (group && p.sender != m.sender) || m.timestamp - p.timestamp
            > 300,
    }
}

pub fn first_of_run(prev: Option<&StoredMessage>, m: &StoredMessage, group: bool) -> (r: bool)
    requires
        prev matches Some(p) ==> i64::MIN <= m.timestamp - p.timestamp <= i64::MAX,
    ensures
        r == starts_run(
            match prev {
                Some(p) => Some(p@),
                None => None,
            },
            m@,
            group,
        ),
{
    match prev {
        None => true,
        Some(p) => p.from_me != m.from_me || (group && !crate::text::str_eq(p.sender.as_str(), m.sender.as_str()))
            || m.timestamp - p.timestamp > 300,
    }
}

// ---------------------------------------------------------------------------
// Link hosts
// ---------------------------------------------------------------------------

/// What url's parser gives as the host of a text, if it parses as an
/// absolute url that has a host.
pub uninterp spec fn parsed_host(url: Seq<char>) -> Option<Seq<char>>;

/// url's `Url::parse`, then `host_str`. Claimed: the host is
/// `parsed_host(url)`, nothing when the text does not parse or the url has
/// no host.
#[verifier::external_body]
fn url_host_of(url: &str) -> (r: Option<String>)
    ensures
        match parsed_host(url@) {
            Some(h) => r matches Some(x) && x@ == h,
            None => r is None,
        },
{
    match url::Url::parse(url) {
        Ok(u) => u.host_str().map(|h| h.to_string()),
        Err(_) => None,
    }
}

/// The host a link card names: the url's host without leading "www.";
/// nothing for an empty or unparsable url.
pub open spec fn link_host_of(url: Seq<char>) -> Seq<char> {
    if url.len() == 0 {
        seq![]
    } else {
        match parsed_host(url) {
            Some(h) => strip_all(h, "www."@),
            None => seq![],
        }
    }
}

/// The host a link card names.
pub fn host_of(url: &str) -> (r: String)
    ensures
        r@ == link_host_of(url@),
{
    if url.is_empty() {
        return String::new();
    }
    match url_host_of(url) {
        Some(h) => {
            let v = chars_of(h.as_str());
            let mut cur = v;
            let www = chars_of("www.");
            while crate::text::starts_with_of(&cur, &www)
                invariant
                    www@ == "www."@,
                    strip_all(cur@, "www."@) == strip_all(h@, "www."@),
                decreases cur@.len(),
            {
                proof {
                    reveal_strlit("www.");
                }
                let mut next: Vec<char> = Vec::new();
                crate::text::push_range(&mut next, &cur, 4, cur.len());
                assert(next@ =~= cur@.skip(4));
                cur = next;
            }
            proof {
                reveal_strlit("www.");
            }
            string_of(&cur)
        },
        None => String::new(),
    }
}

// ---------------------------------------------------------------------------
// Message rows
// ---------------------------------------------------------------------------

/// What a message row shows besides pictures, times and the player.
pub struct RowFacts {
    /// "text", "image", "audio", "doc" or "video" ("text" once deleted).
    pub kind: String,
    pub text: String,
    pub show_sender: bool,
    pub sender_label: String,
    pub first_of_run: bool,
    /// The day, above the first message of each day.
    pub day_label: String,
    pub ticks: String,
    pub ticks_blue: bool,
    pub reactions: String,
    pub sender_initial: String,
    pub sender_color: Option<i32>,
    pub voice_jid: String,
    pub voice_initial: String,
    pub voice_color: Option<i32>,
    pub group_indent: bool,
    pub show_avatar: bool,
    /// The number of an unsaved sender, next to the name it announced.
    pub sender_number: String,
    pub sender_jid: String,
    pub has_link: bool,
    pub link_title: String,
    pub link_desc: String,
    pub link_host: String,
    pub has_quote: bool,
    pub quote_name: String,
    pub quote_text: String,
}

/// A row's facts as plain values, but for its reactions line.
pub struct RowView {
    pub kind: Seq<char>,
    pub text: Seq<char>,
    pub show_sender: bool,
    pub sender_label: Seq<char>,
    pub first_of_run: bool,
    pub day_label: Seq<char>,
    pub ticks: Seq<char>,
    pub ticks_blue: bool,
    pub sender_initial: Seq<char>,
    pub sender_color: Option<i32>,
    pub voice_jid: Seq<char>,
    pub voice_initial: Seq<char>,
    pub voice_color: Option<i32>,
    pub group_indent: bool,
    pub show_avatar: bool,
    pub sender_number: Seq<char>,
    pub sender_jid: Seq<char>,
    pub has_link: bool,
    pub link_title: Seq<char>,
    pub link_desc: Seq<char>,
    pub link_host: Seq<char>,
    pub has_quote: bool,
    pub quote_name: Seq<char>,
    pub quote_text: Seq<char>,
}

impl View for RowFacts {
    type V = RowView;

    open spec fn view(&self) -> RowView {
        RowView {
            kind: self.kind@,
            text: self.text@,
            show_sender: self.show_sender,
            sender_label: self.sender_label@,
            first_of_run: self.first_of_run,
            day_label: self.day_label@,
            ticks: self.ticks@,
            ticks_blue: self.ticks_blue,
            sender_initial: self.sender_initial@,
            sender_color: self.sender_color,
            voice_jid: self.voice_jid@,
            voice_initial: self.voice_initial@,
            voice_color: self.voice_color,
            group_indent: self.group_indent,
            show_avatar: self.show_avatar,
            sender_number: self.sender_number@,
            sender_jid: self.sender_jid@,
            has_link: self.has_link,
            link_title: self.link_title@,
            link_desc: self.link_desc@,
            link_host: self.link_host@,
            has_quote: self.has_quote,
            quote_name: self.quote_name@,
            quote_text: self.quote_text@,
        }
    }
}

/// The kind a row draws.
pub open spec fn kind_name(m: MessageView) -> Seq<char> {
    if m.deleted {
        "text"@
    } else {
        match m.kind {
            MessageKind::Text => "text"@,
            MessageKind::Image => "image"@,
            MessageKind::Audio => "audio"@,
            MessageKind::Doc => "doc"@,
            MessageKind::Video => "video"@,
        }
    }
}

/// Who a row says sent a message: its sender resolved through the
/// aliases, or the chat when it names none.
pub open spec fn row_sender_jid(v: StoreView, m: MessageView) -> Seq<char> {
    if m.sender_jid.len() == 0 {
        m.jid
    } else {
        canon_of(v.aliases, m.sender_jid)
    }
}

/// A text, or "?" when it is empty.
pub open spec fn or_question(s: Seq<char>) -> Seq<char> {
    if s.len() == 0 {
        seq!['?']
    } else {
        s
    }
}

/// What a message row shows, given the message before it, our own jid,
/// the message's day and the previous message's day.
pub open spec fn row_of(
    v: StoreView,
    m: MessageView,
    prev: Option<MessageView>,
    self_jid: Seq<char>,
    day: Seq<char>,
    prev_day: Option<Seq<char>>,
    locale: Locale,
) -> RowView {
    let group = ends_with(m.jid, "@g.us"@);
    let first = starts_run(prev, m, group);
    let sj = row_sender_jid(v, m);
    let group_indent = group && !m.from_me;
    let voice_jid = if m.kind == MessageKind::Audio {
        if m.from_me {
            self_jid
        } else {
            sj
        }
    } else {
        seq![]
    };
    let unsaved = sj.len() != 0 && !is_saved_in(v, sj);
    RowView {
        kind: kind_name(m),
        text: if m.deleted {
            translated(locale, "msg.deleted"@, seq![])
        } else {
            m.text
        },
        show_sender: group && !m.from_me && first,
        sender_label: if group && unsaved {
            seq!['~', ' '] + chat_name_of(v, sj)
        } else {
            chat_name_of(v, if sj.len() == 0 { m.jid } else { sj })
        },
        first_of_run: first,
        day_label: if prev_day == Some(day) {
            seq![]
        } else {
            day
        },
        ticks: ticks_of(m).0,
        ticks_blue: ticks_of(m).1,
        sender_initial: initial_text(or_question(m.sender)),
        sender_color: avatar_color_of(if sj.len() == 0 { m.jid } else { sj }),
        voice_jid,
        voice_initial: initial_text(
            if m.from_me {
                or_question(chat_name_of(v, self_jid))
            } else {
                or_question(m.sender)
            },
        ),
        voice_color: avatar_color_of(if voice_jid.len() == 0 { m.jid } else { voice_jid }),
        group_indent,
        show_avatar: group_indent && first,
        sender_number: if group_indent && unsaved {
            formatted_number(sj)
        } else {
            seq![]
        },
        sender_jid: sj,
        has_link: m.link_title.len() != 0 || m.link_url.len() != 0,
        link_title: trimmed(m.link_title),
        link_desc: trimmed(m.link_desc),
        link_host: link_host_of(m.link_url),
        has_quote: m.quote_text.len() != 0 || m.quote_id.len() != 0,
        quote_name: if m.quote_author.len() == 0 {
            translated(locale, "reactions.you"@, seq![])
        } else if chat_name_of(v, m.quote_author).len() == 0 {
            display_id_of(m.quote_author)
        } else {
            chat_name_of(v, m.quote_author)
        },
        quote_text: named_from(v, m.quote_text, 0),
    }
}

fn or_question_exec(s: String) -> (r: String)
    ensures
        r@ == or_question(s@),
{
    proof {
        reveal_strlit("?");
    }
    if s.as_str().is_empty() {
        "?".to_string()
    } else {
        s
    }
}

fn kind_name_exec(m: &StoredMessage) -> (r: String)
    ensures
        r@ == kind_name(m@),
{
    if m.deleted {
        return "text".to_string();
    }
    match m.kind {
        MessageKind::Text => "text".to_string(),
        MessageKind::Image => "image".to_string(),
        MessageKind::Audio => "audio".to_string(),
        MessageKind::Doc => "doc".to_string(),
        MessageKind::Video => "video".to_string(),
    }
}

fn trimmed_text(s: &str) -> (r: String)
    ensures
        r@ == trimmed(s@),
{
    string_of(&trim_of(&chars_of(s)))
}

impl Store {
    /// Who a row says sent a message.
    fn row_sender(&self, m: &StoredMessage) -> (r: String)
        ensures
            r@ == row_sender_jid(self@, m@),
    {
        if m.sender_jid.as_str().is_empty() {
            m.jid.clone()
        } else {
            self.canon(m.sender_jid.as_str())
        }
    }

    /// The name a reply's strip shows for the author of what it answers.
    fn quote_name(&self, m: &StoredMessage, locale: Locale) -> (r: String)
        ensures
            r@ == (if m@.quote_author.len() == 0 {
                translated(locale, "reactions.you"@, seq![])
            } else if chat_name_of(self@, m@.quote_author).len() == 0 {
                display_id_of(m@.quote_author)
            } else {
                chat_name_of(self@, m@.quote_author)
            }),
    {
        if m.quote_author.as_str().is_empty() {
            t(locale, "reactions.you")
        } else {
            let name = self.chat_name(m.quote_author.as_str());
            if name.as_str().is_empty() {
                display_id(m.quote_author.as_str())
            } else {
                name
            }
        }
    }

    /// What a message row shows, given the message before it, our own
    /// jid, the message's day and, when there is a message before it, that
    /// message's day.
    #[verifier::rlimit(60)]
    #[verifier::spinoff_prover]
    pub fn row_facts(
        &self,
        m: &StoredMessage,
        prev: Option<&StoredMessage>,
        self_jid: &str,
        day: &str,
        prev_day: Option<&str>,
        locale: Locale,
    ) -> (r: RowFacts)
        requires
            prev matches Some(p) ==> i64::MIN <= m.timestamp - p.timestamp <= i64::MAX,
        ensures
            r@ == row_of(
                self@,
                m@,
                match prev {
                    Some(p) => Some(p@),
                    None => None,
                },
                self_jid@,
                day@,
                match prev_day {
                    Some(d) => Some(d@),
                    None => None,
                },
                locale,
            ),
            r.reactions@ == reaction_line(m.reactions.values().map_values(|s: String| s@)),
    {
        let group = str_ends_with(m.jid.as_str(), "@g.us");
        let first = first_of_run(prev, m, group);
        let sj = self.row_sender(m);
        let group_indent = group && !m.from_me;
        let is_audio = match m.kind {
            MessageKind::Audio => true,
            _ => false,
        };
        let voice_jid = if is_audio {
            if m.from_me {
                self_jid.to_string()
            } else {
                sj.clone()
            }
        } else {
            String::new()
        };
        let unsaved = !sj.as_str().is_empty() && !self.is_saved(sj.as_str());
        let sender_label = if group && unsaved {
            let mut v = chars_of("~ ");
            let name = self.chat_name(sj.as_str());
            push_all(&mut v, &chars_of(name.as_str()));
            proof {
                reveal_strlit("~ ");
            }
            assert(v@ =~= seq!['~', ' '] + name@);
            string_of(&v)
        } else {
            self.chat_name(
                if sj.as_str().is_empty() {
                    m.jid.as_str()
                } else {
                    sj.as_str()
                },
            )
        };
        let day_label = match prev_day {
            Some(d) => if str_eq(d, day) {
                String::new()
            } else {
                day.to_string()
            },
            None => day.to_string(),
        };
        let (ticks, ticks_blue) = ticks_for(m);
        let voice_name = if m.from_me {
            or_question_exec(self.chat_name(self_jid))
        } else {
            or_question_exec(m.sender.clone())
        };
        let sender_number = if group_indent && unsaved {
            format_number(sj.as_str())
        } else {
            String::new()
        };
        let sender_color = avatar_color(
            if sj.as_str().is_empty() {
                m.jid.as_str()
            } else {
                sj.as_str()
            },
        );
        let voice_color = avatar_color(
            if voice_jid.as_str().is_empty() {
                m.jid.as_str()
            } else {
                voice_jid.as_str()
            },
        );
        RowFacts {
            kind: kind_name_exec(m),
            text: if m.deleted {
                t(locale, "msg.deleted")
            } else {
                m.text.clone()
            },
            show_sender: group && !m.from_me && first,
            sender_label,
            first_of_run: first,
            day_label,
            ticks: ticks.to_string(),
            ticks_blue,
            reactions: reaction_summary(m),
            sender_initial: initial_of(or_question_exec(m.sender.clone()).as_str()),
            sender_color,
            voice_jid,
            voice_initial: initial_of(voice_name.as_str()),
            voice_color,
            group_indent,
            show_avatar: group_indent && first,
            sender_number,
            sender_jid: sj,
            has_link: !m.link_title.as_str().is_empty() || !m.link_url.as_str().is_empty(),
            link_title: trimmed_text(m.link_title.as_str()),
            link_desc: trimmed_text(m.link_desc.as_str()),
            link_host: host_of(m.link_url.as_str()),
            has_quote: !m.quote_text.as_str().is_empty() || !m.quote_id.as_str().is_empty(),
            quote_name: self.quote_name(m, locale),
            quote_text: self.named_mentions(m.quote_text.as_str()),
        }
    }
}

} // verus!
