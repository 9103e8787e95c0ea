use zapive::i18n::Locale;
use zapive::store::{
    clean_text, compute_preview, disk_tail, display_id, format_duration, format_number, is_channel, is_displayable_jid,
    is_group, newest_distinct, preview_body, reaction_summary, sort_by_time, sticker_identity, ticks_for, HistChat, LiveMeta,
    MessageKind, Store, StoredMessage,
};
use zapive::table::Table;

fn msg(jid: &str, id: &str, ts: i64, text: &str) -> StoredMessage {
    StoredMessage {
        id: id.into(),
        jid: jid.into(),
        kind: MessageKind::Text,
        text: text.into(),
        from_me: false,
        sender: String::new(),
        sender_jid: String::new(),
        forwarded: false,
        deleted: false,
        gif: false,
        starred: false,
        sticker: false,
        mentions: Vec::new(),
        mentions_me: false,
        quote_id: String::new(),
        quote_author: String::new(),
        quote_text: String::new(),
        link_title: String::new(),
        link_desc: String::new(),
        link_url: String::new(),
        timestamp: ts,
        mimetype: String::new(),
        media_w: 0,
        media_h: 0,
        duration_sec: 0,
        status: 0,
        reactions: Table::new(),
        raw: None,
    }
}

fn ids(store: &Store, jid: &str) -> Vec<String> {
    store.messages_for(jid).iter().map(|m| m.id.clone()).collect()
}

const ANA: &str = "5511999998888@s.whatsapp.net";

#[test]
fn display_ids_and_phone_numbers() {
    assert_eq!(display_id(ANA), "+5511999998888");
    assert_eq!(display_id("123@g.us"), "123");
    assert_eq!(display_id("12345678901234567@s.whatsapp.net"), "12345678901234567");
    assert_eq!(display_id("abc"), "abc");
    assert_eq!(format_number("5538920006927@s.whatsapp.net"), "+55 38 92000-6927");
    assert_eq!(format_number("553892006927@s.whatsapp.net"), "+55 38 9200-6927");
    assert_eq!(format_number("14155550100@s.whatsapp.net"), "+14155550100");
    assert_eq!(format_number("123456@lid"), "");
    assert_eq!(format_number("abc@s.whatsapp.net"), "");
    assert_eq!(format_duration(65), "1:05");
    assert_eq!(format_duration(0), "0:00");
    assert_eq!(format_duration(600), "10:00");
}

#[test]
fn jid_kinds() {
    assert!(is_group("1@g.us"));
    assert!(is_channel("1@newsletter"));
    assert!(!is_displayable_jid(""));
    assert!(!is_displayable_jid("status@broadcast"));
    assert!(!is_displayable_jid("12@broadcast"));
    assert!(is_displayable_jid("1@newsletter"));
    assert!(is_displayable_jid("1@lid"));
    assert!(is_displayable_jid(ANA));
    assert!(!is_displayable_jid("x@example.com"));
    assert_eq!(clean_text("\u{2764}\u{FE0F} ok"), "\u{2764} ok");
}

#[test]
fn a_message_is_added_once_and_kept_in_time_order() {
    let mut s = Store::new();
    let mut first = msg(ANA, "1", 10, "olá   mundo");
    first.sender = "Ana".into();
    assert!(s.add_message(first, Locale::En));
    assert!(!s.add_message(msg(ANA, "1", 10, "again"), Locale::En));
    assert!(s.add_message(msg(ANA, "2", 5, "older"), Locale::En));
    assert!(s.add_message(msg(ANA, "3", 10, "same time"), Locale::En));
    assert_eq!(ids(&s, ANA), vec!["2", "1", "3"]);
    let row = s.chats.get(ANA).unwrap();
    // The older message does not take over the row.
    assert_eq!(row.preview, "same time");
    assert_eq!(row.timestamp, 10);
    // A direct chat learns the name its peer announces.
    assert_eq!(s.push_names.get(ANA).unwrap(), "Ana");
    assert_eq!(s.chat_name(ANA), "Ana");
    assert!(s.dirty_jids.contains(ANA));
}

#[test]
fn a_chat_keeps_its_newest_messages() {
    let mut s = Store::new();
    for i in 0..510i64 {
        assert!(s.add_message(msg(ANA, &format!("m{i}"), i, "x"), Locale::En));
    }
    let kept = ids(&s, ANA);
    assert_eq!(kept.len(), 500);
    assert_eq!(kept[0], "m10");
    assert_eq!(kept[499], "m509");
}

#[test]
fn a_star_that_came_first_sticks() {
    let mut s = Store::new();
    assert!(!s.set_starred(ANA, "9", true));
    assert!(s.starred_dirty);
    assert!(s.add_message(msg(ANA, "9", 1, "hi"), Locale::En));
    assert!(s.messages_for(ANA)[0].starred);
    assert!(!s.set_starred(ANA, "9", true));
    assert!(s.set_starred(ANA, "9", false));
    assert!(!s.messages_for(ANA)[0].starred);
}

#[test]
fn deleting_status_and_reactions() {
    let mut s = Store::new();
    let mut own = msg(ANA, "1", 1, "secret");
    own.from_me = true;
    own.status = 2;
    own.raw = Some(vec![1, 2, 3]);
    s.add_message(own, Locale::En);
    assert!(s.set_status(ANA, "1", 3));
    assert!(!s.set_status(ANA, "1", 3));
    assert!(!s.set_status(ANA, "1", 2));
    assert_eq!(s.messages_for(ANA)[0].status, 3);
    assert_eq!(ticks_for(s.messages_for(ANA)[0]), ("\u{2713}\u{2713}", false));
    assert!(s.apply_reaction(ANA, "1", "a@s.whatsapp.net", "\u{1F44D}"));
    assert!(s.apply_reaction(ANA, "1", "b@s.whatsapp.net", "\u{1F44D}"));
    assert!(s.apply_reaction(ANA, "1", "c@s.whatsapp.net", "\u{2764}\u{FE0F}"));
    assert_eq!(reaction_summary(s.messages_for(ANA)[0]), "\u{1F44D}\u{2764} 3");
    assert!(s.apply_reaction(ANA, "1", "a@s.whatsapp.net", ""));
    assert!(s.apply_reaction(ANA, "1", "b@s.whatsapp.net", ""));
    assert_eq!(reaction_summary(s.messages_for(ANA)[0]), "\u{2764}");
    assert!(!s.apply_reaction(ANA, "missing", "a@s.whatsapp.net", "x"));
    assert!(s.mark_deleted(ANA, "1"));
    assert!(!s.mark_deleted(ANA, "1"));
    let m = s.messages_for(ANA)[0];
    assert!(m.deleted && m.text.is_empty() && m.raw.is_none() && m.kind == MessageKind::Text);
}

#[test]
fn ticks_follow_the_delivery_status() {
    let mut m = msg(ANA, "1", 1, "x");
    assert_eq!(ticks_for(&m), ("", false));
    m.from_me = true;
    assert_eq!(ticks_for(&m), ("\u{2713}", false));
    m.status = 4;
    assert_eq!(ticks_for(&m), ("\u{2713}\u{2713}", true));
}

#[test]
fn previews_name_mentions_and_senders() {
    let mut s = Store::new();
    s.upsert_contact(ANA, Some("Ana"), None);
    assert!(s.is_saved(ANA));
    assert_eq!(s.named_mentions("oi @5511999998888!"), "oi @Ana!");
    assert_eq!(s.named_mentions("oi @12345 e @1234"), "oi @12345 e @1234");
    let mut g = msg("1@g.us", "1", 1, "oi   @5511999998888");
    g.sender = "Bia Souza".into();
    assert_eq!(compute_preview(&g, &s, Locale::En), "Bia: oi @Ana");
    g.from_me = true;
    assert_eq!(compute_preview(&g, &s, Locale::En), "\u{2713} oi @Ana");
    let mut img = msg(ANA, "2", 1, "");
    img.kind = MessageKind::Image;
    assert_eq!(preview_body(&img, Locale::En), "\u{1F4F7} Photo");
    assert_eq!(preview_body(&img, Locale::Pt), "\u{1F4F7} Foto");
    let mut doc = msg(ANA, "3", 1, "a.pdf");
    doc.kind = MessageKind::Doc;
    assert_eq!(preview_body(&doc, Locale::En), "\u{1F4C4} a.pdf");
    let mut gif = msg(ANA, "4", 1, "");
    gif.kind = MessageKind::Video;
    gif.gif = true;
    assert_eq!(preview_body(&gif, Locale::En), "\u{1F3AC} GIF");
    let long = msg(ANA, "5", 1, &"a".repeat(100));
    assert_eq!(preview_body(&long, Locale::En).chars().count(), 80);
}

#[test]
fn an_alias_merges_the_two_chats() {
    let mut s = Store::new();
    let lid = "77@lid";
    s.upsert_chat(lid, Some("Old"), 5, Some(2), None, None);
    s.upsert_chat(ANA, None, 9, Some(1), Some(3), None);
    s.add_message(msg(lid, "a", 1, "from lid"), Locale::En);
    s.add_message(msg(ANA, "b", 2, "from pn"), Locale::En);
    s.add_message(msg(lid, "b", 2, "duplicate"), Locale::En);
    s.push_names.insert(lid.into(), "Lia".into());
    assert!(s.merge_fits_now(lid, ANA));
    assert!(s.learn_alias(lid, ANA));
    assert!(!s.learn_alias(lid, ANA));
    assert!(s.chats.get(lid).is_none());
    let row = s.chats.get(ANA).unwrap();
    assert_eq!(row.unread, 3);
    assert_eq!(row.pinned, 3);
    assert_eq!(row.name, "Old");
    assert_eq!(ids(&s, ANA), vec!["a", "b"]);
    assert_eq!(s.messages_for(ANA)[0].jid, ANA);
    assert!(s.deleted_jids.contains(lid));
    assert_eq!(s.push_names.get(ANA).unwrap(), "Lia");
    assert_eq!(s.canon(lid), ANA);
}

#[test]
fn chat_updates_and_the_list_order() {
    let mut s = Store::new();
    let chats = vec![
        HistChat { jid: "1@g.us".into(), name: Some("Um".into()), timestamp: 10, unread: None, pinned: None, archived: None },
        HistChat { jid: "2@g.us".into(), name: None, timestamp: 30, unread: Some(4), pinned: None, archived: None },
        HistChat { jid: "3@g.us".into(), name: None, timestamp: 5, unread: None, pinned: Some(100), archived: None },
        HistChat { jid: "4@g.us".into(), name: None, timestamp: 7, unread: None, pinned: Some(200), archived: Some(true) },
        HistChat { jid: "status@broadcast".into(), name: None, timestamp: 99, unread: None, pinned: None, archived: None },
    ];
    s.upsert_hist_chats(&chats);
    assert!(s.chats.get("status@broadcast").is_none());
    s.upsert_chat("1@g.us", None, 3, None, None, None);
    let one = s.chats.get("1@g.us").unwrap();
    assert_eq!(one.name, "Um");
    assert_eq!(one.timestamp, 10);
    let order: Vec<String> = s.sorted_chats().iter().map(|c| c.jid.clone()).collect();
    assert_eq!(order, vec!["4@g.us", "3@g.us", "2@g.us", "1@g.us"]);
    s.set_name("2@g.us", "Dois");
    assert_eq!(s.chat_name("2@g.us"), "Dois");
    s.set_name("9@g.us", "Nove");
    assert_eq!(s.contacts.get("9@g.us").unwrap(), "Nove");
}

#[test]
fn the_call_log() {
    let mut s = Store::new();
    let e = s.upsert_call("c1", ANA, "offer", true, false, 0, 1234).unwrap();
    assert_eq!(e.timestamp, 1234);
    assert!(s.upsert_call("c1", ANA, "offer", true, false, 0, 1234).is_none());
    let changed = s.upsert_call("c1", ANA, "accept", true, false, 0, 1234).unwrap();
    assert_eq!(changed.status, "accept");
    for i in 0..120 {
        s.upsert_call(&format!("n{i}"), ANA, "offer", false, false, i + 1, 0);
    }
    assert_eq!(s.calls.len(), 100);
    assert_eq!(s.calls[0].id, "n119");
    assert!(s.calls_dirty);
}

#[test]
fn status_updates_live_a_day() {
    let mut s = Store::new();
    let now = 1_000_000;
    assert!(!s.add_status(msg(ANA, "old", now - 86_400, "x"), now));
    assert!(s.add_status(msg(ANA, "s1", now - 100, "x"), now));
    assert!(!s.add_status(msg(ANA, "s1", now - 100, "x"), now));
    assert!(s.add_status(msg("b@s.whatsapp.net", "s2", now - 50, "y"), now));
    assert_eq!(s.statuses.get(ANA).unwrap()[0].sender_jid, ANA);
    let rows = s.status_authors(now);
    assert_eq!(rows.len(), 2);
    assert_eq!(rows[0].0, "b@s.whatsapp.net");
    assert_eq!(rows[1].2, 1);
    s.prune_statuses(now + 86_400 - 75);
    assert!(s.statuses.get(ANA).is_none());
    assert!(s.statuses.get("b@s.whatsapp.net").is_some());
}

#[test]
fn across_chats() {
    let mut s = Store::new();
    let mut a = msg(ANA, "a", 3, "");
    a.gif = true;
    a.raw = Some(vec![1]);
    let mut b = msg("1@g.us", "b", 7, "");
    b.gif = true;
    let mut c = msg("1@g.us", "c", 2, "");
    c.raw = Some(vec![2]);
    c.sticker = true;
    c.from_me = true;
    s.add_message(a, Locale::En);
    s.add_message(b, Locale::En);
    s.add_message(c, Locale::En);
    let gifs: Vec<String> = s.recent_gifs(10).iter().map(|m| m.id.clone()).collect();
    assert_eq!(gifs, vec!["b", "a"]);
    assert_eq!(s.recent_gifs(1).len(), 1);
    assert_eq!(s.oldest_message().unwrap().id, "c");
    assert_eq!(s.oldest_in_chat(ANA).unwrap().id, "a");
    assert_eq!(s.total_messages(), 3);
    let stickers = s.stickers(false);
    assert_eq!(stickers.len(), 1);
    assert!(s.stickers(true).is_empty());
}

#[test]
fn stickers_show_once_newest_first() {
    let x = msg(ANA, "x", 1, "");
    let y = msg(ANA, "y", 3, "");
    let z = msg(ANA, "z", 2, "");
    let items = vec![("k1".to_string(), &x), ("k2".to_string(), &y), ("k1".to_string(), &z)];
    let out: Vec<String> = newest_distinct(items.clone(), 10).iter().map(|m| m.id.clone()).collect();
    assert_eq!(out, vec!["y", "z"]);
    assert_eq!(newest_distinct(items, 1).len(), 1);
}

#[test]
fn stickers_are_told_apart_by_their_hash() {
    assert_eq!(sticker_identity(Some(&b"abc"[..]), "m1"), "YWJj");
    assert_eq!(sticker_identity(Some(&[][..]), "m1"), "");
    assert_eq!(sticker_identity(None, "m1"), "m1");
}

#[test]
fn sorting_by_time_is_stable() {
    let v = vec![msg(ANA, "a", 2, ""), msg(ANA, "b", 1, ""), msg(ANA, "c", 2, ""), msg(ANA, "d", 1, "")];
    let out: Vec<String> = sort_by_time(v).iter().map(|m| m.id.clone()).collect();
    assert_eq!(out, vec!["b", "d", "a", "c"]);
}

#[test]
fn cold_chats_hydrate_and_evict() {
    let mut s = Store::new();
    s.add_message(msg(ANA, "live", 5, ""), Locale::En);
    assert!(s.mark_hydrated(ANA));
    assert!(!s.mark_hydrated(ANA));
    s.merge_disk(ANA, vec![msg(ANA, "d1", 1, ""), msg(ANA, "live", 5, ""), msg(ANA, "d2", 9, "")]);
    assert_eq!(ids(&s, ANA), vec!["d1", "live", "d2"]);
    // Unsaved changes keep a chat in memory.
    s.evict(ANA);
    assert_eq!(ids(&s, ANA).len(), 3);
    s.dirty_jids.remove(ANA);
    s.evict(ANA);
    assert!(ids(&s, ANA).is_empty());
    assert!(!s.hydrated.contains(ANA));
}

#[test]
fn incoming_messages_are_routed() {
    let mut s = Store::new();
    s.learn_pair("88@lid", ANA);
    assert_eq!(s.canon("88@lid"), ANA);
    let meta = LiveMeta {
        chat: "88@lid".into(),
        sender: "88@lid".into(),
        sender_alt: None,
        recipient_alt: None,
        id: "m1",
        from_me: false,
        is_group: false,
        push_name: "Ana",
        timestamp: 1,
    };
    let (jid, sender_jid, sender) = s.admit_live(&meta).unwrap();
    assert_eq!(jid, ANA);
    assert_eq!(sender_jid, ANA);
    assert_eq!(sender, "Ana");
    let bad = LiveMeta { chat: "status@broadcast".into(), ..meta };
    assert!(s.admit_live(&bad).is_none());
    s.set_self(&vec!["88@lid".to_string(), String::new()]);
    assert!(s.self_jids.contains("88@lid") && s.self_jids.contains(ANA));
}

#[test]
fn the_vault_keeps_the_newest_three_hundred() {
    let list: Vec<StoredMessage> = (0..320).map(|i| msg(ANA, &i.to_string(), i, "x")).collect();
    let tail = disk_tail(&list);
    assert_eq!(tail.len(), 300);
    assert_eq!(tail[0].id, "20");
    assert_eq!(tail[299].id, "319");
    let short: Vec<StoredMessage> = (0..3).map(|i| msg(ANA, &i.to_string(), i, "x")).collect();
    assert_eq!(disk_tail(&short).len(), 3);
}

#[test]
fn cleaning_twice_is_cleaning_once_and_numbers_keep_their_digits() {
    let s = "a\u{FE0F}\u{FE0E}b\u{FE00}";
    assert_eq!(clean_text(s), "ab");
    assert_eq!(clean_text(&clean_text(s)), clean_text(s));
    for jid in ["5511987654321@s.whatsapp.net", "1 (555) 010-999@x", "abc@s.whatsapp.net", "123@lid"] {
        let f = format_number(jid);
        let user = jid.split('@').next().unwrap();
        let digits: String = user.chars().filter(|c| c.is_ascii_digit()).collect();
        if jid.ends_with("@lid") || digits.is_empty() {
            assert_eq!(f, "");
        } else {
            assert!(f.starts_with('+'));
            assert_eq!(f.chars().filter(|c| c.is_ascii_digit()).collect::<String>(), digits);
            assert!(f.chars().all(|c| c.is_ascii_digit() || c == '+' || c == ' ' || c == '-'));
        }
    }
    assert_eq!(format_number("5511987654321@s.whatsapp.net"), "+55 11 98765-4321");
}

#[test]
fn the_reaction_line_has_at_most_three_emoji_then_the_count() {
    let mut s = Store::new();
    s.add_message(msg(ANA, "1", 1, "hi"), Locale::En);
    for (who, e) in [("a", "1"), ("b", "2"), ("c", "3"), ("d", "4"), ("e", "1")] {
        assert!(s.apply_reaction(ANA, "1", &format!("{who}@s.whatsapp.net"), e));
    }
    assert_eq!(reaction_summary(s.messages_for(ANA)[0]), "123 5");
}
