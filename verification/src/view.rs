//! What the window shows, decided from the store: which chats a list
//! shows, the one-line body of a notification, a burst of notifications
//! summed up in one, and who an "@digits" mention stands for.
use vstd::prelude::*;
use vstd::string::StringSliceAdditionalSpecFns;
use vstd::utf8::encode_utf8;
use crate::text::{chars_of, string_of, contains, contains_of, ends_with, push_all, push_range, trimmed, trim_of, push_decimal, decimal};
use crate::unicode::{str_lowercase, lowercase_str};
use crate::i18n::{Locale, t, ta, translated};
use crate::markup::{MentionTarget, target_view, targets_view, message_mention_ids, markdown, has_markup_spec, has_markup, mention_ids, to_markdown_with};
use crate::store::{
    Store, StoreView, StoredMessage, MessageView, MessageKind, ChatMeta, ChatView, chat_name_of, chat_order,
    is_channel, without_selectors, clean_text, canon_of, name_for, list_of, added_store, by_time, insert_by_time,
    capped, named_from, is_group, MEMORY_MESSAGES, message_index, id_index, with_message, preview_body_of,
    preview_body, first_chars, display_id, display_id_of,
};
use crate::text::{is_ascii_digit, str_eq};
use crate::wa::MediaWant;

verus! {

broadcast use vstd::string::group_string_axioms;

/// The text lowercased as `str::to_lowercase` does it (a capital sigma
/// ending a word lowers to the final sigma).
pub open spec fn lowered(s: Seq<char>) -> Seq<char> {
    str_lowercase(s)
}

fn lowered_exec(s: &Vec<char>) -> (r: Vec<char>)
    ensures
        r@ == lowered(s@),
{
    let text = string_of(s);
    let low = lowercase_str(text.as_str());
    chars_of(low.as_str())
}

/// What a chat-list search looks for: the typed text trimmed and
/// lowercased.
pub fn search_key(text: &str) -> (r: String)
    ensures
        r@ == lowered(trimmed(text@)),
{
    string_of(&lowered_exec(&trim_of(&chars_of(text))))
}

/// A chat shows in a list: channels have a view of their own, so do
/// communities (and their groups); the archived tab shows archived chats
/// only, the others the rest, "unread" only those with unread messages;
/// a search keeps the chats whose lowercased name holds it.
pub open spec fn chat_shown(v: StoreView, c: ChatView, view: Seq<char>, tab: Seq<char>, search: Seq<char>) -> bool {
    let channel = ends_with(c.jid, "@newsletter"@);
    let kind_ok = if view == "channels"@ {
        channel
    } else if view == "communities"@ {
        c.is_community || c.community.len() != 0
    } else {
        !channel && !c.is_community
    };
    let tab_ok = if tab == "archived"@ {
        c.archived
    } else {
        !c.archived && !(tab == "unread"@ && c.unread == 0)
    };
    let search_ok = search.len() == 0 || contains(lowered(chat_name_of(v, c.jid)), search);
    kind_ok && tab_ok && search_ok
}

/// The chats of `s` a list shows, in order.
pub open spec fn shown_chats(v: StoreView, s: Seq<ChatView>, view: Seq<char>, tab: Seq<char>, search: Seq<char>) -> Seq<ChatView>
    decreases s.len(),
{
    if s.len() == 0 {
        seq![]
    } else {
        let prev = shown_chats(v, s.drop_last(), view, tab, search);
        if chat_shown(v, s.last(), view, tab, search) {
            prev.push(s.last())
        } else {
            prev
        }
    }
}

/// The tabs split a list: no chat shows both under "archived" and under
/// "all", and every chat under "unread" shows under "all" too.
pub proof fn law_tabs_split_the_chats(v: StoreView, c: ChatView, view: Seq<char>, search: Seq<char>)
    ensures
        !(chat_shown(v, c, view, "archived"@, search) && chat_shown(v, c, view, "all"@, search)),
        chat_shown(v, c, view, "unread"@, search) ==> chat_shown(v, c, view, "all"@, search),
{
    reveal_strlit("archived");
    reveal_strlit("all");
    reveal_strlit("unread");
    assert("all"@.len() != "archived"@.len() && "unread"@.len() != "archived"@.len() && "all"@.len()
        != "unread"@.len());
}

impl Store {
    fn chat_shown_exec(&self, c: &ChatMeta, view: &str, tab: &str, search: &str) -> (r: bool)
        ensures
            r == chat_shown(self@, c@, view@, tab@, search@),
    {
        let channel = is_channel(c.jid.as_str());
        let kind_ok = if crate::text::str_eq(view, "channels") {
            channel
        } else if crate::text::str_eq(view, "communities") {
            c.is_community || !c.community.as_str().is_empty()
        } else {
            !channel && !c.is_community
        };
        let tab_ok = if crate::text::str_eq(tab, "archived") {
            c.archived
        } else {
            !c.archived && !(crate::text::str_eq(tab, "unread") && c.unread == 0)
        };
        if !kind_ok || !tab_ok {
            return false;
        }
        if search.is_empty() {
            return true;
        }
        let name = self.chat_name(c.jid.as_str());
        contains_of(&lowered_exec(&chars_of(name.as_str())), &chars_of(search))
    }

    /// The chats a list shows, in chat-list order, for a view ("chats",
    /// "channels" or "communities"), a tab ("all", "unread", "archived")
    /// and a search key.
    pub fn visible_chats(&self, view: &str, tab: &str, search: &str) -> (r: Vec<&ChatMeta>)
        ensures
            r@.map_values(|c: &ChatMeta| c@) == shown_chats(
                self@,
                chat_order(self.chats.values().map_values(|c: ChatMeta| c@)),
                view@,
                tab@,
                search@,
            ),
    {
        let all = self.sorted_chats();
        let ghost sv = all@.map_values(|c: &ChatMeta| c@);
        let mut out: Vec<&ChatMeta> = Vec::new();
        let n = all.len();
        let mut i: usize = 0;
        while i < n
            invariant
                n == all@.len(),
                i <= n,
                sv == all@.map_values(|c: &ChatMeta| c@),
                out@.map_values(|c: &ChatMeta| c@) == shown_chats(self@, sv.take(i as int), view@, tab@, search@),
            decreases n - i,
        {
            assert(sv.take(i + 1).drop_last() =~= sv.take(i as int));
            let c = all[i];
            let ghost prev = out@;
            if self.chat_shown_exec(c, view, tab, search) {
                out.push(c);
                assert(out@.map_values(|c: &ChatMeta| c@) =~= prev.map_values(|c: &ChatMeta| c@).push(c@));
            }
            i = i + 1;
        }
        assert(sv.take(n as int) =~= sv);
        out
    }
}

// ---------------------------------------------------------------------------
// Notifications
// ---------------------------------------------------------------------------

/// The one line a notification shows for a message: a label for media,
/// the document's name, or the text as it is.
pub open spec fn notification_body_of(m: MessageView, locale: Locale) -> Seq<char> {
    if m.sticker {
        translated(locale, "preview.sticker"@, seq![])
    } else {
        match m.kind {
            MessageKind::Image => translated(locale, "preview.photo"@, seq![]),
            MessageKind::Audio => translated(locale, "preview.audio"@, seq![]),
            MessageKind::Doc => translated(locale, "preview.document"@, seq![m.text]),
            MessageKind::Video => if m.gif {
                translated(locale, "preview.gif"@, seq![])
            } else {
                translated(locale, "preview.video"@, seq![])
            },
            MessageKind::Text => m.text,
        }
    }
}

/// A notification names what a message is: a sticker, a photo, a voice
/// note, a document (with its file name), a GIF or a video, whatever text
/// comes with it; a text message shows its text.
pub proof fn law_notification_names_the_media(m: MessageView, locale: Locale)
    ensures
        m.sticker ==> notification_body_of(m, locale) == translated(locale, "preview.sticker"@, seq![]),
        !m.sticker && m.kind == MessageKind::Image ==> notification_body_of(m, locale) == translated(locale, "preview.photo"@, seq![]),
        !m.sticker && m.kind == MessageKind::Audio ==> notification_body_of(m, locale) == translated(locale, "preview.audio"@, seq![]),
        !m.sticker && m.kind == MessageKind::Doc ==> notification_body_of(m, locale) == translated(locale, "preview.document"@, seq![m.text]),
        !m.sticker && m.kind == MessageKind::Video && m.gif ==> notification_body_of(m, locale) == translated(locale, "preview.gif"@, seq![]),
        !m.sticker && m.kind == MessageKind::Video && !m.gif ==> notification_body_of(m, locale) == translated(locale, "preview.video"@, seq![]),
        !m.sticker && m.kind == MessageKind::Text ==> notification_body_of(m, locale) == m.text,
{
}

/// The one line a notification shows for a message.
pub fn notification_body(m: &StoredMessage, locale: Locale) -> (r: String)
    ensures
        r@ == notification_body_of(m@, locale),
        m.sticker ==> r@ == translated(locale, "preview.sticker"@, seq![]),
        !m.sticker && m.kind == MessageKind::Image ==> r@ == translated(locale, "preview.photo"@, seq![]),
        !m.sticker && m.kind == MessageKind::Audio ==> r@ == translated(locale, "preview.audio"@, seq![]),
        !m.sticker && m.kind == MessageKind::Doc ==> r@ == translated(locale, "preview.document"@, seq![m.text@]),
        !m.sticker && m.kind == MessageKind::Video && m.gif ==> r@ == translated(locale, "preview.gif"@, seq![]),
        !m.sticker && m.kind == MessageKind::Video && !m.gif ==> r@ == translated(locale, "preview.video"@, seq![]),
        !m.sticker && m.kind == MessageKind::Text ==> r@ == m.text@,
{
    proof {
        law_notification_names_the_media(m@, locale);
    }
    if m.sticker {
        return t(locale, "preview.sticker");
    }
    match m.kind {
        MessageKind::Image => t(locale, "preview.photo"),
        MessageKind::Audio => t(locale, "preview.audio"),
        MessageKind::Doc => {
            let args = [m.text.as_str()];
            let r = ta(locale, "preview.document", &args);
            assert(args@.map_values(|a: &str| a@) =~= seq![m.text@]);
            r
        },
        MessageKind::Video => if m.gif {
            t(locale, "preview.gif")
        } else {
            t(locale, "preview.video")
        },
        MessageKind::Text => m.text.clone(),
    }
}

/// The senders a burst of notifications names: its distinct titles in
/// order, at most three.
pub open spec fn burst_names(q: Seq<(String, String, String)>) -> Seq<Seq<char>>
    decreases q.len(),
{
    if q.len() == 0 {
        seq![]
    } else {
        let prev = burst_names(q.drop_last());
        if prev.len() < 3 && !prev.contains(q.last().0@) {
            prev.push(q.last().0@)
        } else {
            prev
        }
    }
}

/// Texts joined with ", ".
pub open spec fn comma_joined(s: Seq<Seq<char>>) -> Seq<char>
    decreases s.len(),
{
    if s.len() == 0 {
        seq![]
    } else if s.len() == 1 {
        s[0]
    } else {
        comma_joined(s.drop_last()) + seq![',', ' '] + s.last()
    }
}

/// The toast a queue of (title, text, chat) notifications becomes: none
/// for an empty queue, the one notification as it is, else one summary
/// under the app's name that counts them and names up to three senders,
/// opening the latest chat.
pub open spec fn notification_summary_of(q: Seq<(String, String, String)>, locale: Locale) -> Option<(Seq<char>, Seq<char>, Seq<char>)> {
    if q.len() == 0 {
        None
    } else if q.len() == 1 {
        Some((q[0].0@, q[0].1@, q[0].2@))
    } else {
        let names = burst_names(q);
        let text = if names.len() == 1 {
            translated(locale, "notify.fromOne"@, seq![decimal(q.len()), names[0]])
        } else {
            translated(locale, "notify.newMessages"@, seq![decimal(q.len()), comma_joined(names)])
        };
        Some((translated(locale, "notify.appName"@, seq![]), text, q.last().2@))
    }
}

proof fn lemma_burst_names_nonempty(q: Seq<(String, String, String)>)
    requires
        q.len() > 0,
    ensures
        1 <= burst_names(q).len() <= 3,
    decreases q.len(),
{
    if q.len() == 1 {
        assert(q.drop_last().len() == 0);
        assert(burst_names(q.drop_last()) == Seq::<Seq<char>>::empty());
    } else {
        lemma_burst_names_nonempty(q.drop_last());
    }
}

fn names_contain(names: &Vec<String>, x: &String) -> (r: bool)
    ensures
        r == names@.map_values(|s: String| s@).contains(x@),
{
    let ghost nv = names@.map_values(|s: String| s@);
    let mut i: usize = 0;
    while i < names.len()
        invariant
            i <= names@.len(),
            nv == names@.map_values(|s: String| s@),
            forall|k: int| 0 <= k < i ==> nv[k] != x@,
        decreases names.len() - i,
    {
        if crate::text::str_eq(names[i].as_str(), x.as_str()) {
            assert(nv[i as int] == x@);
            return true;
        }
        i = i + 1;
    }
    false
}

/// What a queue of (title, text, chat) notifications shows as one toast.
pub fn notification_summary(q: &Vec<(String, String, String)>, locale: Locale) -> (r: Option<(String, String, String)>)
    ensures
        match notification_summary_of(q@, locale) {
            Some((a, b, c)) => r matches Some(x) && x.0@ == a && x.1@ == b && x.2@ == c,
            None => r is None,
        },
{
    let n = q.len();
    if n == 0 {
        return None;
    }
    if n == 1 {
        return Some((q[0].0.clone(), q[0].1.clone(), q[0].2.clone()));
    }
    let mut names: Vec<String> = Vec::new();
    let mut i: usize = 0;
    while i < n
        invariant
            n == q@.len(),
            i <= n,
            names@.map_values(|s: String| s@) == burst_names(q@.take(i as int)),
        decreases n - i,
    {
        assert(q@.take(i + 1).drop_last() =~= q@.take(i as int));
        let ghost prev = names@;
        if names.len() < 3 && !names_contain(&names, &q[i].0) {
            let x = q[i].0.clone();
            names.push(x);
            assert(names@.map_values(|s: String| s@) =~= prev.map_values(|s: String| s@).push(x@));
        }
        i = i + 1;
    }
    assert(q@.take(n as int) =~= q@);
    proof {
        lemma_burst_names_nonempty(q@);
    }
    let ghost nv = names@.map_values(|s: String| s@);
    let mut count: Vec<char> = Vec::new();
    push_decimal(&mut count, n as u64);
    let count = string_of(&count);
    let text = if names.len() == 1 {
        let args = [count.as_str(), names[0].as_str()];
        let r = ta(locale, "notify.fromOne", &args);
        assert(args@.map_values(|a: &str| a@) =~= seq![decimal(n as nat), nv[0]]);
        r
    } else {
        let mut joined: Vec<char> = chars_of(names[0].as_str());
        let mut k: usize = 1;
        assert(nv.take(1) =~= seq![nv[0]]);
        while k < names.len()
            invariant
                1 <= k <= names@.len(),
                nv == names@.map_values(|s: String| s@),
                joined@ == comma_joined(nv.take(k as int)),
            decreases names.len() - k,
        {
            assert(nv.take(k + 1).drop_last() =~= nv.take(k as int));
            joined.push(',');
            joined.push(' ');
            let w = chars_of(names[k].as_str());
            push_all(&mut joined, &w);
            k = k + 1;
        }
        assert(nv.take(names@.len() as int) =~= nv);
        let all = string_of(&joined);
        let args = [count.as_str(), all.as_str()];
        let r = ta(locale, "notify.newMessages", &args);
        assert(args@.map_values(|a: &str| a@) =~= seq![decimal(n as nat), comma_joined(nv)]);
        r
    };
    Some((t(locale, "notify.appName"), text, q[n - 1].2.clone()))
}

// ---------------------------------------------------------------------------
// Mentions
// ---------------------------------------------------------------------------

/// Who "@num" stands for: the first of its phone and lid identities (each
/// resolved through the aliases) that has a name, under that name; else
/// the identity its length suggests (more than 13 bytes is a lid), unnamed.
pub open spec fn mention_target_of(v: StoreView, num: Seq<char>, num_bytes: nat) -> (Option<Seq<char>>, Seq<char>) {
    let pn = canon_of(v.aliases, num + "@s.whatsapp.net"@);
    let lid = canon_of(v.aliases, num + "@lid"@);
    match name_for(v, pn) {
        Some(n) => (Some(without_selectors(n)), pn),
        None => match name_for(v, lid) {
            Some(n) => (Some(without_selectors(n)), lid),
            None => (
                None,
                canon_of(
                    v.aliases,
                    if num_bytes > 13 {
                        num + "@lid"@
                    } else {
                        num + "@s.whatsapp.net"@
                    },
                ),
            ),
        },
    }
}

/// The mention targets of some ids, in order.
pub open spec fn mention_targets_of(v: StoreView, ids: Seq<Seq<char>>) -> Seq<(Option<Seq<char>>, Seq<char>)> {
    ids.map_values(|id: Seq<char>| mention_target_of(v, id, encode_utf8(id).len()))
}

/// The styled rendering's source for a message: its markdown, with its
/// mentions named through the store; nothing for a deleted message or
/// text without markup.
pub open spec fn styled_source_of(v: StoreView, m: MessageView) -> Option<Seq<char>> {
    let body = if m.deleted { Seq::<char>::empty() } else { m.text };
    if body.len() == 0 || !has_markup_spec(body) {
        None
    } else {
        Some(markdown(body, mention_targets_of(v, message_mention_ids(body))))
    }
}

fn with_suffix(num: &str, suffix: &str) -> (r: String)
    ensures
        r@ == num@ + suffix@,
{
    let mut v = chars_of(num);
    let w = chars_of(suffix);
    push_all(&mut v, &w);
    string_of(&v)
}

impl Store {
    /// Who "@num" in a message stands for.
    pub fn mention_target(&self, num: &str) -> (r: MentionTarget)
        ensures
            target_view(r) == mention_target_of(self@, num@, num.spec_bytes().len()),
    {
        let pn = self.canon(with_suffix(num, "@s.whatsapp.net").as_str());
        if let Some(n) = self.name_for_jid(pn.as_str()) {
            return MentionTarget { name: Some(clean_text(n.as_str())), jid: pn };
        }
        let lid = self.canon(with_suffix(num, "@lid").as_str());
        if let Some(n) = self.name_for_jid(lid.as_str()) {
            return MentionTarget { name: Some(clean_text(n.as_str())), jid: lid };
        }
        let guess = if num.as_bytes().len() > 13 {
            with_suffix(num, "@lid")
        } else {
            with_suffix(num, "@s.whatsapp.net")
        };
        MentionTarget { name: None, jid: self.canon(guess.as_str()) }
    }

    /// The markdown the styled rendering of a message draws, if it needs
    /// one.
    pub fn styled_source(&self, m: &StoredMessage) -> (r: Option<String>)
        ensures
            match styled_source_of(self@, m@) {
                Some(s) => r matches Some(x) && x@ == s,
                None => r is None,
            },
    {
        let body: &str = if m.deleted {
            ""
        } else {
            m.text.as_str()
        };
        proof {
            reveal_strlit("");
        }
        if body.is_empty() || !has_markup(body) {
            return None;
        }
        let ids = mention_ids(body);
        let ghost iv = ids@.map_values(|s: String| s@);
        let mut targets: Vec<MentionTarget> = Vec::new();
        let mut i: usize = 0;
        while i < ids.len()
            invariant
                i <= ids@.len(),
                iv == ids@.map_values(|s: String| s@),
                targets_view(targets@) =~= mention_targets_of(self@, iv.take(i as int)),
            decreases ids.len() - i,
        {
            let ghost prev = targets@;
            let tg = self.mention_target(ids[i].as_str());
            targets.push(tg);
            assert(ids[i as int]@ == iv[i as int]);
            assert(target_view(tg) == mention_target_of(self@, iv[i as int], encode_utf8(iv[i as int]).len()));
            assert(targets@ =~= prev.push(tg));
            assert(targets_view(targets@) =~= targets_view(prev).push(target_view(tg)));
            assert(iv.take(i + 1) =~= iv.take(i as int).push(iv[i as int]));
            i = i + 1;
        }
        assert(iv.take(ids@.len() as int) =~= iv);
        Some(to_markdown_with(body, &targets))
    }
}

// ---------------------------------------------------------------------------
// Incoming messages
// ---------------------------------------------------------------------------

/// What filing an incoming message comes to.
pub enum Arrival {
    /// The chat already holds a message with its id; nothing changed.
    Duplicate,
    /// It belongs to the chat on screen, whose rows take it.
    InOpenChat,
    /// One of ours, sent from another device.
    Ours,
    /// Counted unread; this notification (title, text, chat) announces it.
    Notify(String, String, String),
}

/// The store once a new message of someone else's counts as unread in its
/// chat (and marks the chat mentioned when it mentions us).
pub open spec fn unread_bumped(v: StoreView, j: Seq<char>, mentions_me: bool) -> StoreView {
    if v.chats.contains_key(j) {
        StoreView {
            chats: v.chats.insert(
                j,
                ChatView {
                    unread: (v.chats[j].unread + 1) as u32,
                    mentioned: v.chats[j].mentioned || mentions_me,
                    ..v.chats[j]
                },
            ),
            ..v
        }
    } else {
        v
    }
}

/// The notification for the newest message of chat `j`: the chat's name,
/// and the message's line with mentions named (after the sender's name in
/// a group).
pub open spec fn arrival_note(v: StoreView, j: Seq<char>, locale: Locale) -> (Seq<char>, Seq<char>) {
    let last = list_of(v, j).last();
    let body = named_from(v, notification_body_of(last, locale), 0);
    (
        chat_name_of(v, j),
        if ends_with(j, "@g.us"@) && last.sender.len() != 0 {
            last.sender + seq![':', ' '] + body
        } else {
            body
        },
    )
}

proof fn lemma_insert_by_time_len(s: Seq<MessageView>, m: MessageView)
    ensures
        insert_by_time(s, m).len() == s.len() + 1,
    decreases s.len(),
{
    if s.len() > 0 && s.last().timestamp > m.timestamp {
        lemma_insert_by_time_len(s.drop_last(), m);
    }
}

proof fn lemma_by_time_len(s: Seq<MessageView>)
    ensures
        by_time(s).len() == s.len(),
    decreases s.len(),
{
    if s.len() > 0 {
        lemma_by_time_len(s.drop_last());
        lemma_insert_by_time_len(by_time(s.drop_last()), s.last());
    }
}

impl Store {
    /// Counts a new message of someone else's as unread in its chat.
    fn bump_unread(&mut self, jid: &str, mentions_me: bool)
        requires
            old(self)@.chats.contains_key(jid@) ==> old(self)@.chats[jid@].unread < u32::MAX,
        ensures
            final(self)@ == unread_bumped(old(self)@, jid@, mentions_me),
    {
        let updated = match self.chats.get(jid) {
            Some(c) => Some(
                ChatMeta {
                    jid: c.jid.clone(),
                    name: c.name.clone(),
                    preview: c.preview.clone(),
                    timestamp: c.timestamp,
                    unread: c.unread + 1,
                    mentioned: c.mentioned || mentions_me,
                    pinned: c.pinned,
                    archived: c.archived,
                    community: c.community.clone(),
                    is_community: c.is_community,
                },
            ),
            None => None,
        };
        if let Some(c) = updated {
            self.chats.insert(jid.to_string(), c);
            proof {
                assert(self@.chats =~= unread_bumped(old(self)@, jid@, mentions_me).chats);
            }
        }
    }

    /// Files an incoming message: it joins its chat unless the chat holds
    /// its id; in the chat on screen that is all; a message of someone
    /// else's elsewhere counts as unread (mentioned, when it mentions us)
    /// and is announced by a notification.
    pub fn take_incoming(&mut self, stored: StoredMessage, open_jid: Option<&str>, locale: Locale) -> (r: Arrival)
        requires
            old(self)@.chats.contains_key(stored@.jid) ==> old(self)@.chats[stored@.jid].unread < u32::MAX,
        ensures
            ({
                let j = stored@.jid;
                let w = added_store(old(self)@, stored@, locale);
                if crate::store::ids_of(list_of(old(self)@, j)).contains(stored@.id) {
                    r is Duplicate && final(self)@ == old(self)@
                } else if open_jid matches Some(o) && o@ == j {
                    r is InOpenChat && final(self)@ == w
                } else if stored@.from_me {
                    r is Ours && final(self)@ == w
                } else {
                    let w2 = unread_bumped(w, j, stored@.mentions_me);
                    let note = arrival_note(w2, j, locale);
                    &&& final(self)@ == w2
                    &&& r matches Arrival::Notify(title, text, jid) && title@ == note.0 && text@ == note.1
                        && jid@ == j
                }
            }),
    {
        let jid = stored.jid.clone();
        let from_me = stored.from_me;
        let mentions_me = stored.mentions_me;
        let ghost sv = stored@;
        if !self.add_message(stored, locale) {
            return Arrival::Duplicate;
        }
        if let Some(o) = open_jid {
            if crate::text::str_eq(o, jid.as_str()) {
                return Arrival::InOpenChat;
            }
        }
        if from_me {
            return Arrival::Ours;
        }
        proof {
            let v = old(self)@;
            let m = MessageView { starred: sv.starred || v.starred_ids.contains(sv.id), ..sv };
            lemma_by_time_len(list_of(v, sv.jid).push(m));
            assert(self@.messages.contains_key(sv.jid));
            assert(list_of(self@, sv.jid).len() > 0);
        }
        self.bump_unread(jid.as_str(), mentions_me);
        let list = self.messages_for(jid.as_str());
        let last = list[list.len() - 1];
        let body = self.named_mentions(notification_body(last, locale).as_str());
        let title = self.chat_name(jid.as_str());
        let text = if is_group(jid.as_str()) && !last.sender.as_str().is_empty() {
            let mut v = chars_of(last.sender.as_str());
            v.push(':');
            v.push(' ');
            push_all(&mut v, &chars_of(body.as_str()));
            string_of(&v)
        } else {
            body
        };
        Arrival::Notify(title, text, jid)
    }
}

// ---------------------------------------------------------------------------
// Reactions in the chat list
// ---------------------------------------------------------------------------

/// Who a reaction line in the chat list names: "✓ " for our own, the
/// first word of the reactor's name in a group, else no one.
pub open spec fn reactor_prefix(v: StoreView, chat: Seq<char>, reactor: Seq<char>, from_me: bool) -> Seq<char> {
    let name = chat_name_of(v, canon_of(v.aliases, reactor));
    if from_me {
        seq!['\u{2713}', ' ']
    } else if ends_with(chat, "@g.us"@) && name.len() != 0 {
        name.take(crate::text::find_char(name, ' ', 0)) + seq![':', ' ']
    } else {
        seq![]
    }
}

/// What the chat list shows after a reaction: Reacted <emoji> to:
/// "<the start of what it reacted to>", with who reacted before it.
pub open spec fn reaction_preview(
    v: StoreView,
    chat: Seq<char>,
    target: Seq<char>,
    reactor: Seq<char>,
    emoji: Seq<char>,
    from_me: bool,
    locale: Locale,
) -> Seq<char> {
    let k = message_index(v, chat, target);
    let snippet = if k >= 0 {
        first_chars(preview_body_of(list_of(v, chat)[k], locale), 32)
    } else {
        seq![]
    };
    reactor_prefix(v, chat, reactor, from_me) + translated(
        locale,
        "preview.reacted"@,
        seq![without_selectors(emoji), snippet],
    )
}

/// The store with chat `chat`'s row showing `preview` as of `now`.
pub open spec fn with_preview(v: StoreView, chat: Seq<char>, preview: Seq<char>, now: i64) -> StoreView {
    if v.chats.contains_key(chat) {
        StoreView {
            chats: v.chats.insert(chat, ChatView { preview, timestamp: now, ..v.chats[chat] }),
            ..v
        }
    } else {
        v
    }
}

impl Store {
    /// The first message of a chat with this id.
    fn find_in_chat(&self, jid: &str, id: &str) -> (r: Option<&StoredMessage>)
        ensures
            match r {
                Some(m) => message_index(self@, jid@, id@) >= 0 && m@ == list_of(self@, jid@)[
                    message_index(self@, jid@, id@)
                ],
                None => message_index(self@, jid@, id@) < 0,
            },
    {
        let list = self.messages_for(jid);
        let ghost lv = list_of(self@, jid@);
        let mut i: usize = 0;
        while i < list.len()
            invariant
                i <= list@.len(),
                list@.map_values(|m: &StoredMessage| m@) == lv,
                lv == list_of(self@, jid@),
                id_index(lv, id@, 0) == id_index(lv, id@, i as int),
            decreases list.len() - i,
        {
            if crate::text::str_eq(list[i].id.as_str(), id) {
                assert(lv[i as int] == list@[i as int]@);
                return Some(list[i]);
            }
            assert(lv[i as int] == list@[i as int]@);
            i = i + 1;
        }
        None
    }

    fn set_preview(&mut self, jid: &str, preview: String, now: i64)
        ensures
            final(self)@ == with_preview(old(self)@, jid@, preview@, now),
    {
        let updated = match self.chats.get(jid) {
            Some(c) => Some(
                ChatMeta {
                    jid: c.jid.clone(),
                    name: c.name.clone(),
                    preview,
                    timestamp: now,
                    unread: c.unread,
                    mentioned: c.mentioned,
                    pinned: c.pinned,
                    archived: c.archived,
                    community: c.community.clone(),
                    is_community: c.is_community,
                },
            ),
            None => None,
        };
        if let Some(c) = updated {
            self.chats.insert(jid.to_string(), c);
            proof {
                assert(self@.chats =~= with_preview(old(self)@, jid@, preview@, now).chats);
            }
        }
    }

    fn reactor_prefix_exec(&self, chat: &str, reactor: &str, from_me: bool) -> (r: String)
        ensures
            r@ == reactor_prefix(self@, chat@, reactor@, from_me),
    {
        let name = self.chat_name(self.canon(reactor).as_str());
        if from_me {
            let mut v: Vec<char> = Vec::new();
            v.push('\u{2713}');
            v.push(' ');
            string_of(&v)
        } else if is_group(chat) && !name.as_str().is_empty() {
            let nv = chars_of(name.as_str());
            let k = crate::text::find_char_of(&nv, ' ', 0);
            proof {
                crate::text::lemma_find_char(nv@, ' ', 0);
            }
            let mut v: Vec<char> = Vec::new();
            push_range(&mut v, &nv, 0, k);
            v.push(':');
            v.push(' ');
            assert(v@ =~= name@.take(k as int) + seq![':', ' ']);
            string_of(&v)
        } else {
            String::new()
        }
    }

    /// Sets or (with an empty emoji) removes a reaction to a message of a
    /// chat; a reaction that lands also becomes the chat's latest activity
    /// in the list, as of `now`. True when the message is here.
    pub fn take_reaction(
        &mut self,
        chat: &str,
        target: &str,
        reactor: &str,
        emoji: &str,
        from_me: bool,
        now: i64,
        locale: Locale,
    ) -> (r: bool)
        ensures
            ({
                let v = old(self)@;
                let k = message_index(v, chat@, target@);
                let m = list_of(v, chat@)[k];
                let reactions = if emoji@.len() == 0 {
                    m.reactions.remove(reactor@)
                } else {
                    m.reactions.insert(reactor@, without_selectors(emoji@))
                };
                let w = with_message(v, chat@, k, MessageView { reactions, ..m });
                &&& r == (k >= 0)
                &&& !r ==> final(self)@ == v
                &&& r && emoji@.len() == 0 ==> final(self)@ == w
                &&& r && emoji@.len() != 0 ==> final(self)@ == with_preview(
                    w,
                    chat@,
                    reaction_preview(w, chat@, target@, reactor@, emoji@, from_me, locale),
                    now,
                )
            }),
    {
        let updated = self.apply_reaction(chat, target, reactor, emoji);
        if !updated || emoji.is_empty() {
            return updated;
        }
        let snippet = match self.find_in_chat(chat, target) {
            Some(m) => {
                let p = chars_of(preview_body(m, locale).as_str());
                let n = if p.len() > 32 {
                    32
                } else {
                    p.len()
                };
                let mut v: Vec<char> = Vec::new();
                push_range(&mut v, &p, 0, n);
                assert(v@ =~= first_chars(preview_body_of(m@, locale), 32));
                string_of(&v)
            },
            None => String::new(),
        };
        let who = self.reactor_prefix_exec(chat, reactor, from_me);
        let e = clean_text(emoji);
        let args = [e.as_str(), snippet.as_str()];
        let line = ta(locale, "preview.reacted", &args);
        assert(args@.map_values(|a: &str| a@) =~= seq![without_selectors(emoji@), snippet@]);
        let mut all = chars_of(who.as_str());
        push_all(&mut all, &chars_of(line.as_str()));
        self.set_preview(chat, string_of(&all), now);
        true
    }
}

// ---------------------------------------------------------------------------
// Pairing, forwarding, replying
// ---------------------------------------------------------------------------

/// The ASCII digits of a text, in order.
pub open spec fn digits_of(s: Seq<char>) -> Seq<char>
    decreases s.len(),
{
    if s.len() == 0 {
        seq![]
    } else if is_ascii_digit(s.last()) {
        digits_of(s.drop_last()).push(s.last())
    } else {
        digits_of(s.drop_last())
    }
}

fn digits_exec(s: &Vec<char>) -> (r: Vec<char>)
    ensures
        r@ == digits_of(s@),
{
    let mut out: Vec<char> = Vec::new();
    let n = s.len();
    let mut i: usize = 0;
    while i < n
        invariant
            n == s@.len(),
            i <= n,
            out@ == digits_of(s@.take(i as int)),
        decreases n - i,
    {
        assert(s@.take(i + 1).drop_last() =~= s@.take(i as int));
        if '0' <= s[i] && s[i] <= '9' {
            out.push(s[i]);
        }
        i = i + 1;
    }
    assert(s@.take(n as int) =~= s@);
    out
}

/// The phone number a pairing code is asked for: the digits typed, when
/// there are at least eight of them.
pub fn pairing_digits(phone: &str) -> (r: Option<String>)
    ensures
        match r {
            Some(d) => d@ == digits_of(phone@) && digits_of(phone@).len() >= 8,
            None => digits_of(phone@).len() < 8,
        },
{
    let d = digits_exec(&chars_of(phone));
    if d.len() < 8 {
        None
    } else {
        Some(string_of(&d))
    }
}

/// A chat is offered as a forward target: never a channel; with a query,
/// when its lowercased name holds the query or its jid holds the query's
/// digits.
pub open spec fn forward_shown(v: StoreView, c: ChatView, q: Seq<char>) -> bool {
    let digits = digits_of(q);
    !ends_with(c.jid, "@newsletter"@) && (q.len() == 0 || contains(lowered(chat_name_of(v, c.jid)), q) || (
    digits.len() != 0 && contains(c.jid, digits)))
}

/// The chats of `s` offered as forward targets, in order.
pub open spec fn forward_chats(v: StoreView, s: Seq<ChatView>, q: Seq<char>) -> Seq<ChatView>
    decreases s.len(),
{
    if s.len() == 0 {
        seq![]
    } else {
        let prev = forward_chats(v, s.drop_last(), q);
        if forward_shown(v, s.last(), q) {
            prev.push(s.last())
        } else {
            prev
        }
    }
}

/// At most the first `n` items.
pub open spec fn first_items<T>(s: Seq<T>, n: nat) -> Seq<T> {
    if s.len() <= n {
        s
    } else {
        s.take(n as int)
    }
}

impl Store {
    fn forward_shown_exec(&self, c: &ChatMeta, q: &Vec<char>, digits: &Vec<char>) -> (r: bool)
        requires
            digits@ == digits_of(q@),
        ensures
            r == forward_shown(self@, c@, q@),
    {
        if is_channel(c.jid.as_str()) {
            return false;
        }
        if q.len() == 0 {
            return true;
        }
        let name = lowered_exec(&chars_of(self.chat_name(c.jid.as_str()).as_str()));
        contains_of(&name, q) || (digits.len() != 0 && contains_of(&chars_of(c.jid.as_str()), digits))
    }

    /// The chats a message can be forwarded to for what is typed in the
    /// picker's search: in chat-list order, at most 200.
    pub fn forward_targets(&self, query: &str) -> (r: Vec<&ChatMeta>)
        ensures
            r@.map_values(|c: &ChatMeta| c@) == first_items(
                forward_chats(
                    self@,
                    chat_order(self.chats.values().map_values(|c: ChatMeta| c@)),
                    lowered(trimmed(query@)),
                ),
                200,
            ),
    {
        let q = lowered_exec(&trim_of(&chars_of(query)));
        let digits = digits_exec(&q);
        let all = self.sorted_chats();
        let ghost sv = all@.map_values(|c: &ChatMeta| c@);
        let mut out: Vec<&ChatMeta> = Vec::new();
        let n = all.len();
        let mut i: usize = 0;
        while i < n
            invariant
                n == all@.len(),
                i <= n,
                sv == all@.map_values(|c: &ChatMeta| c@),
                digits@ == digits_of(q@),
                out@.map_values(|c: &ChatMeta| c@) == forward_chats(self@, sv.take(i as int), q@),
            decreases n - i,
        {
            assert(sv.take(i + 1).drop_last() =~= sv.take(i as int));
            let c = all[i];
            let ghost prev = out@;
            if self.forward_shown_exec(c, &q, &digits) {
                out.push(c);
                assert(out@.map_values(|c: &ChatMeta| c@) =~= prev.map_values(|c: &ChatMeta| c@).push(c@));
            }
            i = i + 1;
        }
        assert(sv.take(n as int) =~= sv);
        let ghost full = out@;
        out.truncate(200);
        assert(out@.map_values(|c: &ChatMeta| c@) =~= first_items(full.map_values(|c: &ChatMeta| c@), 200));
        out
    }
}

/// What the reply bar shows of the message being answered: who wrote it
/// ("You" for ours, the chat's readable identity when it names no sender)
/// and its chat-list line.
pub open spec fn reply_header_of(m: MessageView, locale: Locale) -> (Seq<char>, Seq<char>) {
    (
        if m.from_me {
            translated(locale, "reactions.you"@, seq![])
        } else if m.sender.len() == 0 {
            display_id_of(m.jid)
        } else {
            m.sender
        },
        preview_body_of(m, locale),
    )
}

/// What the reply bar shows of the message being answered.
pub fn reply_header(m: &StoredMessage, locale: Locale) -> (r: (String, String))
    ensures
        (r.0@, r.1@) == reply_header_of(m@, locale),
{
    let name = if m.from_me {
        t(locale, "reactions.you")
    } else if m.sender.as_str().is_empty() {
        display_id(m.jid.as_str())
    } else {
        m.sender.clone()
    };
    (name, preview_body(m, locale))
}

/// Who a reaction or a deletion in a group names as the author of the
/// message it is about: us or its sender; nothing outside groups or when
/// no one is known.
pub open spec fn key_participant_of(m: MessageView, self_jid: Seq<char>) -> Option<Seq<char>> {
    let p = if m.from_me { self_jid } else { m.sender_jid };
    if !ends_with(m.jid, "@g.us"@) || p.len() == 0 {
        None
    } else {
        Some(p)
    }
}

/// The participant a message key names, in a group.
pub fn key_participant(m: &StoredMessage, self_jid: &str) -> (r: Option<String>)
    ensures
        match key_participant_of(m@, self_jid@) {
            Some(p) => r matches Some(x) && x@ == p,
            None => r is None,
        },
{
    if !is_group(m.jid.as_str()) {
        return None;
    }
    let p = if m.from_me {
        self_jid.to_string()
    } else {
        m.sender_jid.clone()
    };
    if p.as_str().is_empty() {
        None
    } else {
        Some(p)
    }
}

// ---------------------------------------------------------------------------
// Fetching media
// ---------------------------------------------------------------------------

/// What to fetch for a message's media.
#[derive(Clone, Copy, PartialEq, Eq, Structural, Debug)]
pub struct MediaPlan {
    /// Note the message as in flight.
    pub track: bool,
    /// Decode the picture embedded in the message first: `Some(true)` for a
    /// link card's, `Some(false)` for a video's poster.
    pub thumb: Option<bool>,
    /// Then download its media for this purpose.
    pub fetch: Option<MediaWant>,
}

/// What a message's media asks for: nothing for a deleted message, one
/// already in flight or one without its protobuf; a link card's picture
/// for a text that embeds one; a sticker's or a picture's image; a GIF's
/// frames; a video's poster (when embedded) and its file; the file of an
/// audio or a document.
pub open spec fn media_plan_of(
    m: MessageView,
    in_flight: bool,
    has_raw: bool,
    link_thumb: bool,
    video_thumb: bool,
) -> MediaPlan {
    let nothing = MediaPlan { track: false, thumb: None, fetch: None };
    if m.deleted || in_flight || !has_raw {
        nothing
    } else {
        match m.kind {
            MessageKind::Text => if link_thumb {
                MediaPlan { track: true, thumb: Some(true), fetch: None }
            } else {
                nothing
            },
            MessageKind::Image => MediaPlan {
                track: true,
                thumb: None,
                fetch: Some(if m.sticker { MediaWant::Sticker } else { MediaWant::Image }),
            },
            MessageKind::Video => if m.gif {
                MediaPlan { track: true, thumb: None, fetch: Some(MediaWant::Gif) }
            } else {
                MediaPlan {
                    track: true,
                    thumb: if video_thumb { Some(false) } else { None },
                    fetch: Some(MediaWant::File),
                }
            },
            MessageKind::Audio | MessageKind::Doc => MediaPlan {
                track: true,
                thumb: None,
                fetch: Some(MediaWant::File),
            },
        }
    }
}

/// What to fetch for a message's media, given whether it is in flight,
/// whether its protobuf is kept, and whether it embeds a non-empty link
/// picture or video poster.
pub fn media_plan(m: &StoredMessage, in_flight: bool, has_raw: bool, link_thumb: bool, video_thumb: bool) -> (r: MediaPlan)
    ensures
        r == media_plan_of(m@, in_flight, has_raw, link_thumb, video_thumb),
{
    let nothing = MediaPlan { track: false, thumb: None, fetch: None };
    if m.deleted || in_flight || !has_raw {
        return nothing;
    }
    match m.kind {
        MessageKind::Text => if link_thumb {
            MediaPlan { track: true, thumb: Some(true), fetch: None }
        } else {
            nothing
        },
        MessageKind::Image => MediaPlan {
            track: true,
            thumb: None,
            fetch: Some(
                if m.sticker {
                    MediaWant::Sticker
                } else {
                    MediaWant::Image
                },
            ),
        },
        MessageKind::Video => if m.gif {
            MediaPlan { track: true, thumb: None, fetch: Some(MediaWant::Gif) }
        } else {
            MediaPlan {
                track: true,
                thumb: if video_thumb {
                    Some(false)
                } else {
                    None
                },
                fetch: Some(MediaWant::File),
            }
        },
        MessageKind::Audio | MessageKind::Doc => MediaPlan { track: true, thumb: None, fetch: Some(MediaWant::File) },
    }
}

// ---------------------------------------------------------------------------
// Opening a chat, read marks
// ---------------------------------------------------------------------------

/// The store after a chat's read mark changes: read clears its unread
/// count and mention; unread makes it count one, unless it already counts.
pub open spec fn read_marked(v: StoreView, j: Seq<char>, read: bool) -> StoreView {
    if v.chats.contains_key(j) {
        let c = v.chats[j];
        let c2 = if read {
            ChatView { unread: 0, mentioned: false, ..c }
        } else if c.unread == 0 {
            ChatView { unread: 1, ..c }
        } else {
            c
        };
        StoreView { chats: v.chats.insert(j, c2), ..v }
    } else {
        v
    }
}

impl Store {
    /// Marks a chat read (when it is opened, or read on another device)
    /// or unread.
    pub fn mark_read(&mut self, jid: &str, read: bool)
        ensures
            final(self)@ == read_marked(old(self)@, jid@, read),
    {
        let updated = match self.chats.get(jid) {
            Some(c) => {
                let (unread, mentioned) = if read {
                    (0, false)
                } else if c.unread == 0 {
                    (1, c.mentioned)
                } else {
                    (c.unread, c.mentioned)
                };
                Some(
                    ChatMeta {
                        jid: c.jid.clone(),
                        name: c.name.clone(),
                        preview: c.preview.clone(),
                        timestamp: c.timestamp,
                        unread,
                        mentioned,
                        pinned: c.pinned,
                        archived: c.archived,
                        community: c.community.clone(),
                        is_community: c.is_community,
                    },
                )
            },
            None => None,
        };
        if let Some(c) = updated {
            self.chats.insert(jid.to_string(), c);
            proof {
                assert(self@.chats =~= read_marked(old(self)@, jid@, read).chats);
            }
        }
    }
}

/// Where a chat opens when it jumps to a message: the message's place,
/// when it is there and not already the first.
pub open spec fn jump_start_of(list: Seq<MessageView>, target: Seq<char>) -> Option<nat> {
    let k = id_index(list, target, 0);
    if k > 0 {
        Some(k as nat)
    } else {
        None
    }
}

/// Where a chat whose messages are `list` opens when it jumps to `target`.
pub fn jump_start(list: &Vec<&StoredMessage>, target: &str) -> (r: Option<usize>)
    ensures
        r == match jump_start_of(list@.map_values(|m: &StoredMessage| m@), target@) {
            Some(k) => Some(k as usize),
            None => None::<usize>,
        },
{
    let ghost lv = list@.map_values(|m: &StoredMessage| m@);
    let mut i: usize = 0;
    while i < list.len()
        invariant
            i <= list@.len(),
            lv == list@.map_values(|m: &StoredMessage| m@),
            id_index(lv, target@, 0) == id_index(lv, target@, i as int),
        decreases list.len() - i,
    {
        assert(lv[i as int] == list@[i as int]@);
        if crate::text::str_eq(list[i].id.as_str(), target) {
            return if i > 0 {
                Some(i)
            } else {
                None
            };
        }
        i = i + 1;
    }
    None
}

/// A thin chat asks the phone for older messages: fewer than 20 are
/// here, no request is pending, and the oldest keeps its protobuf; the
/// request names it (id, ours or not, time in milliseconds).
pub open spec fn history_request_of(list: Seq<MessageView>, pending: bool) -> Option<(Seq<char>, bool, int)> {
    if list.len() < 20 && !pending && list.len() > 0 && list[0].raw is Some {
        Some((list[0].id, list[0].from_me, list[0].timestamp * 1000))
    } else {
        None
    }
}

/// The older-history request a chat that just opened makes, if any.
pub fn history_request(list: &Vec<&StoredMessage>, pending: bool) -> (r: Option<(String, bool, i64)>)
    requires
        list@.len() < 20 && !pending && list@.len() > 0 && list@[0].raw is Some ==> i64::MIN <= list@[0].timestamp
            * 1000 <= i64::MAX,
    ensures
        match history_request_of(list@.map_values(|m: &StoredMessage| m@), pending) {
            Some((id, from_me, ts)) => r matches Some(x) && x.0@ == id && x.1 == from_me && x.2 == ts,
            None => r is None,
        },
{
    if list.len() < 20 && !pending && list.len() > 0 {
        let first = list[0];
        assert(list@.map_values(|m: &StoredMessage| m@)[0] == first@);
        match &first.raw {
            Some(_) => {
                return Some((first.id.clone(), first.from_me, first.timestamp * 1000));
            },
            None => {},
        }
    }
    None
}

// ---------------------------------------------------------------------------
// The status viewer
// ---------------------------------------------------------------------------

/// Where the status viewer goes from update `idx` of `count` on a step of
/// `delta`: the update there, or nothing (the viewer closes) past either
/// end.
pub open spec fn status_step_of(count: nat, idx: int, delta: int) -> Option<nat> {
    let next = idx + delta;
    if next < 0 || next >= count {
        None
    } else {
        Some(next as nat)
    }
}

/// The update the status viewer shows after a step, if it stays open.
pub fn status_step(count: usize, idx: usize, delta: i32) -> (r: Option<usize>)
    requires
        idx < count <= i32::MAX,
        i32::MIN <= idx + delta <= i32::MAX,
    ensures
        r == match status_step_of(count as nat, idx as int, delta as int) {
            Some(k) => Some(k as usize),
            None => None::<usize>,
        },
{
    let next: i64 = idx as i64 + delta as i64;
    if next < 0 || next >= count as i64 {
        None
    } else {
        Some(next as usize)
    }
}


/// How many chats keep their messages in memory at most, besides the open
/// one and those with unsaved changes.
pub const WARM_MAX: usize = 8;

/// The list without any entry equal to `j`.
pub open spec fn drop_all(s: Seq<Seq<char>>, j: Seq<char>) -> Seq<Seq<char>>
    decreases s.len(),
{
    if s.len() == 0 {
        s
    } else if s.last() == j {
        drop_all(s.drop_last(), j)
    } else {
        drop_all(s.drop_last(), j).push(s.last())
    }
}

/// A warm chat that may not be evicted: the open one, or one with unsaved
/// changes.
pub open spec fn kept_warm(x: Seq<char>, current: Option<Seq<char>>, dirty: Set<Seq<char>>) -> bool {
    current == Some(x) || dirty.contains(x)
}

/// The first chat from `from` on that may be evicted, or the length.
pub open spec fn first_evictable(s: Seq<Seq<char>>, current: Option<Seq<char>>, dirty: Set<Seq<char>>, from: int) -> int
    decreases s.len() - from,
{
    if from < 0 || from >= s.len() {
        s.len() as int
    } else if !kept_warm(s[from], current, dirty) {
        from
    } else {
        first_evictable(s, current, dirty, from + 1)
    }
}

/// The warm list cooled down to `WARM_MAX` (coldest first out, skipping the
/// chats that must stay), and the chats evicted, in order.
pub open spec fn cooled(s: Seq<Seq<char>>, current: Option<Seq<char>>, dirty: Set<Seq<char>>) -> (Seq<Seq<char>>, Seq<Seq<char>>)
    decreases s.len(),
{
    if s.len() <= WARM_MAX {
        (s, seq![])
    } else {
        let k = first_evictable(s, current, dirty, 0);
        if k < 0 || k >= s.len() {
            (s, seq![])
        } else {
            let r = cooled(s.remove(k), current, dirty);
            (r.0, seq![s[k]] + r.1)
        }
    }
}

/// The warm list after `jid` is warmed (moved to the warm end), then cooled.
pub open spec fn warmed(order: Seq<Seq<char>>, jid: Seq<char>, current: Option<Seq<char>>, dirty: Set<Seq<char>>) -> (Seq<Seq<char>>, Seq<Seq<char>>) {
    cooled(drop_all(order, jid).push(jid), current, dirty)
}

pub open spec fn texts(v: Seq<String>) -> Seq<Seq<char>> {
    v.map_values(|s: String| s@)
}

proof fn lemma_first_evictable(s: Seq<Seq<char>>, current: Option<Seq<char>>, dirty: Set<Seq<char>>, from: int)
    requires
        0 <= from,
    ensures
        ({
            let k = first_evictable(s, current, dirty, from);
            &&& from <= k <= s.len() || (from > s.len() && k == s.len())
            &&& k < s.len() ==> !kept_warm(s[k], current, dirty)
            &&& forall|m: int| from <= m < k ==> kept_warm(#[trigger] s[m], current, dirty)
        }),
    decreases s.len() - from,
{
    if from < s.len() && kept_warm(s[from], current, dirty) {
        lemma_first_evictable(s, current, dirty, from + 1);
    }
}

fn drop_all_exec(order: &Vec<String>, jid: &str) -> (r: Vec<String>)
    ensures
        texts(r@) == drop_all(texts(order@), jid@),
{
    let mut out: Vec<String> = Vec::new();
    let n = order.len();
    let mut i: usize = 0;
    while i < n
        invariant
            n == order@.len(),
            i <= n,
            texts(out@) == drop_all(texts(order@).take(i as int), jid@),
        decreases n - i,
    {
        assert(texts(order@).take(i + 1).drop_last() =~= texts(order@).take(i as int));
        assert(texts(order@).take(i + 1).last() == order@[i as int]@);
        if !str_eq(order[i].as_str(), jid) {
            let ghost before = out@;
            out.push(order[i].clone());
            assert(texts(out@) =~= texts(before).push(order@[i as int]@));
        }
        i = i + 1;
    }
    assert(texts(order@).take(n as int) =~= texts(order@));
    out
}

impl Store {
    fn kept_warm_exec(&self, x: &str, current: Option<&str>) -> (r: bool)
        ensures
            r == kept_warm(x@, match current { Some(c) => Some(c@), None => None }, self@.dirty_jids),
    {
        let open = match current {
            Some(c) => str_eq(c, x),
            None => false,
        };
        open || self.dirty_jids.contains(x)
    }

    /// Warms `jid`: it moves to the warm end of `order` (the least recently
    /// warmed chat first), then the coldest chats that are neither open nor
    /// unsaved leave until at most `WARM_MAX` are warm. Gives the new order
    /// and the chats to evict.
    pub fn warm_rotation(&self, order: &Vec<String>, jid: &str, current: Option<&str>) -> (r: (Vec<String>, Vec<String>))
        ensures
            (texts(r.0@), texts(r.1@)) == warmed(
                texts(order@), jid@, match current { Some(c) => Some(c@), None => None }, self@.dirty_jids),
    {
        let ghost cur = match current { Some(c) => Some(c@), None => None };
        let ghost dirty = self@.dirty_jids;
        let mut warm = drop_all_exec(order, jid);
        let ghost dropped = warm@;
        warm.push(jid.to_string());
        assert(texts(warm@) =~= texts(dropped).push(jid@));
        let ghost start = texts(warm@);
        let mut evicted: Vec<String> = Vec::new();
        while warm.len() > WARM_MAX
            invariant_except_break
                cooled(start, cur, dirty) == (cooled(texts(warm@), cur, dirty).0,
                    texts(evicted@) + cooled(texts(warm@), cur, dirty).1),
                cur == (match current { Some(c) => Some(c@), None => None::<Seq<char>> }),
                dirty == self@.dirty_jids,
            ensures
                cooled(start, cur, dirty) == (texts(warm@), texts(evicted@)),
            decreases warm.len(),
        {
            let ghost w = texts(warm@);
            let mut k: usize = 0;
            proof {
                lemma_first_evictable(w, cur, dirty, 0);
            }
            while k < warm.len() && self.kept_warm_exec(warm[k].as_str(), current)
                invariant
                    w == texts(warm@),
                    k <= warm@.len(),
                    first_evictable(w, cur, dirty, 0) == first_evictable(w, cur, dirty, k as int),
                    cur == (match current { Some(c) => Some(c@), None => None::<Seq<char>> }),
                    dirty == self@.dirty_jids,
                decreases warm@.len() - k,
            {
                assert(w[k as int] == warm@[k as int]@);
                k = k + 1;
            }
            if k >= warm.len() {
                assert(first_evictable(w, cur, dirty, k as int) == w.len());
                assert(cooled(w, cur, dirty) == (w, Seq::<Seq<char>>::empty()));
                assert(texts(evicted@) + Seq::<Seq<char>>::empty() =~= texts(evicted@));
                break;
            }
            assert(w[k as int] == warm@[k as int]@);
            assert(first_evictable(w, cur, dirty, k as int) == k);
            let ghost ev = evicted@;
            let x = warm.remove(k);
            evicted.push(x);
            assert(texts(warm@) =~= w.remove(k as int));
            assert(texts(evicted@) =~= texts(ev).push(w[k as int]));
            assert(texts(ev) + (seq![w[k as int]] + cooled(texts(warm@), cur, dirty).1)
                =~= texts(evicted@) + cooled(texts(warm@), cur, dirty).1);
        }
        proof {
            if !(warm@.len() > WARM_MAX) {
                assert(cooled(texts(warm@), cur, dirty) == (texts(warm@), Seq::<Seq<char>>::empty()));
                assert(texts(evicted@) + Seq::<Seq<char>>::empty() =~= texts(evicted@));
            }
        }
        (warm, evicted)
    }
}

proof fn lemma_cooled(s: Seq<Seq<char>>, current: Option<Seq<char>>, dirty: Set<Seq<char>>)
    ensures
        cooled(s, current, dirty).0.len() <= WARM_MAX
            || forall|i: int| 0 <= i < cooled(s, current, dirty).0.len()
                ==> kept_warm(#[trigger] cooled(s, current, dirty).0[i], current, dirty),
        forall|x: Seq<char>| s.contains(x) && kept_warm(x, current, dirty) ==> #[trigger] cooled(s, current, dirty).0.contains(x),
        forall|x: Seq<char>| #[trigger] cooled(s, current, dirty).0.contains(x) ==> s.contains(x),
        forall|i: int| 0 <= i < cooled(s, current, dirty).1.len()
            ==> !kept_warm(#[trigger] cooled(s, current, dirty).1[i], current, dirty)
                && s.contains(cooled(s, current, dirty).1[i]),
    decreases s.len(),
{
    if s.len() > WARM_MAX {
        lemma_first_evictable(s, current, dirty, 0);
        let k = first_evictable(s, current, dirty, 0);
        if k < s.len() {
            let t = s.remove(k);
            lemma_cooled(t, current, dirty);
            let r = cooled(t, current, dirty);
            assert forall|x: Seq<char>| s.contains(x) && kept_warm(x, current, dirty) implies #[trigger] r.0.contains(x) by {
                let m = choose|m: int| 0 <= m < s.len() && s[m] == x;
                assert(m != k);
                if m < k {
                    assert(t[m] == x);
                } else {
                    assert(t[m - 1] == x);
                }
            }
            assert forall|x: Seq<char>| #[trigger] r.0.contains(x) implies s.contains(x) by {
                let m = choose|m: int| 0 <= m < t.len() && t[m] == x;
                if m < k {
                    assert(s[m] == x);
                } else {
                    assert(s[m + 1] == x);
                }
            }
            let e = seq![s[k]] + r.1;
            assert forall|i: int| 0 <= i < e.len() implies !kept_warm(#[trigger] e[i], current, dirty) && s.contains(e[i]) by {
                if i > 0 {
                    assert(e[i] == r.1[i - 1]);
                    let m = choose|m: int| 0 <= m < t.len() && t[m] == e[i];
                    if m < k {
                        assert(s[m] == e[i]);
                    } else {
                        assert(s[m + 1] == e[i]);
                    }
                }
            }
        } else {
            assert forall|i: int| 0 <= i < s.len() implies kept_warm(#[trigger] s[i], current, dirty) by {}
        }
    }
}

/// Warming a chat keeps at most `WARM_MAX` chats warm, unless every chat
/// left warm is open or unsaved; it never evicts the open chat or one with
/// unsaved changes, only evicts chats that were warm, and keeps only chats
/// that were warm or the one just warmed.
pub proof fn law_warm_set_stays_small(order: Seq<Seq<char>>, jid: Seq<char>, current: Option<Seq<char>>, dirty: Set<Seq<char>>)
    ensures
        ({
            let (warm, evicted) = warmed(order, jid, current, dirty);
            &&& warm.len() <= WARM_MAX || forall|i: int| 0 <= i < warm.len() ==> kept_warm(#[trigger] warm[i], current, dirty)
            &&& kept_warm(jid, current, dirty) ==> warm.contains(jid)
            &&& forall|x: Seq<char>| order.contains(x) && kept_warm(x, current, dirty) ==> #[trigger] warm.contains(x)
            &&& forall|x: Seq<char>| #[trigger] warm.contains(x) ==> order.contains(x) || x == jid
            &&& forall|i: int| 0 <= i < evicted.len() ==> !kept_warm(#[trigger] evicted[i], current, dirty)
                && (order.contains(evicted[i]) || evicted[i] == jid)
        }),
{
    let s = drop_all(order, jid).push(jid);
    lemma_drop_all(order, jid);
    lemma_cooled(s, current, dirty);
    assert(s[s.len() - 1] == jid);
    assert forall|x: Seq<char>| order.contains(x) implies #[trigger] s.contains(x) || x == jid by {
        if x != jid {
            assert(drop_all(order, jid).contains(x));
            let m = choose|m: int| 0 <= m < drop_all(order, jid).len() && drop_all(order, jid)[m] == x;
            assert(s[m] == x);
        }
    }
    assert forall|x: Seq<char>| #[trigger] s.contains(x) implies order.contains(x) || x == jid by {
        let m = choose|m: int| 0 <= m < s.len() && s[m] == x;
        if m < s.len() - 1 {
            assert(drop_all(order, jid)[m] == x);
            assert(drop_all(order, jid).contains(x));
        }
    }
}

proof fn lemma_drop_all(s: Seq<Seq<char>>, j: Seq<char>)
    ensures
        forall|x: Seq<char>| x != j && s.contains(x) ==> #[trigger] drop_all(s, j).contains(x),
        forall|x: Seq<char>| #[trigger] drop_all(s, j).contains(x) ==> s.contains(x),
    decreases s.len(),
{
    if s.len() > 0 {
        let p = s.drop_last();
        let q = drop_all(p, j);
        let l = s.last();
        lemma_drop_all(p, j);
        assert(drop_all(s, j) == if l == j { q } else { q.push(l) });
        assert forall|x: Seq<char>| x != j && s.contains(x) implies #[trigger] drop_all(s, j).contains(x) by {
            let m = choose|m: int| 0 <= m < s.len() && s[m] == x;
            if m < s.len() - 1 {
                assert(p[m] == x);
                assert(p.contains(x));
                assert(q.contains(x));
                let w = choose|w: int| 0 <= w < q.len() && q[w] == x;
                if l != j {
                    assert(q.push(l)[w] == x);
                }
            } else {
                assert(l == x);
                assert(q.push(l)[q.len() as int] == x);
            }
        }
        assert forall|x: Seq<char>| #[trigger] drop_all(s, j).contains(x) implies s.contains(x) by {
            let d = drop_all(s, j);
            let w = choose|w: int| 0 <= w < d.len() && d[w] == x;
            if w < q.len() {
                assert(d[w] == q[w]);
                assert(q.contains(x));
                assert(p.contains(x));
                let m = choose|m: int| 0 <= m < p.len() && p[m] == x;
                assert(s[m] == x);
            } else {
                assert(x == l);
                assert(s[s.len() - 1] == x);
            }
        }
    }
}

} // verus!
