use zapive::i18n::Locale;
use zapive::store::{MessageKind, Store, StoredMessage};
use zapive::table::Table;
use zapive::wa::MediaWant;
use zapive::view::{
    history_request, jump_start, media_plan, status_step, MediaPlan, key_participant, notification_body, notification_summary, pairing_digits, reply_header, search_key, Arrival,
};

const ANA: &str = "5511999998888@s.whatsapp.net";
const GROUP: &str = "120363@g.us";

fn msg(jid: &str, id: &str, ts: i64, text: &str) -> StoredMessage {
    StoredMessage {
        id: id.into(),
        jid: jid.into(),
        kind: MessageKind::Text,
        text: text.into(),
        from_me: false,
        sender: String::new(),
        sender_jid: String::new(),
        forwarded: false,
        deleted: false,
        gif: false,
        starred: false,
        sticker: false,
        mentions: Vec::new(),
        mentions_me: false,
        quote_id: String::new(),
        quote_author: String::new(),
        quote_text: String::new(),
        link_title: String::new(),
        link_desc: String::new(),
        link_url: String::new(),
        timestamp: ts,
        mimetype: String::new(),
        media_w: 0,
        media_h: 0,
        duration_sec: 0,
        status: 0,
        reactions: Table::new(),
        raw: None,
    }
}

fn jids(list: &[&zapive::store::ChatMeta]) -> Vec<String> {
    list.iter().map(|c| c.jid.clone()).collect()
}

#[test]
fn chat_lists_filter_by_view_tab_and_search() {
    let mut s = Store::new();
    s.upsert_chat(ANA, Some("Ana Souza"), 30, Some(2), None, None);
    s.upsert_chat("1@newsletter", Some("Canal"), 20, None, None, None);
    s.upsert_chat(GROUP, Some("Família"), 10, Some(0), None, Some(true));
    s.upsert_chat("5511777777777@s.whatsapp.net", Some("Bia"), 5, Some(0), None, None);
    assert_eq!(jids(&s.visible_chats("chats", "all", "")), vec![ANA.to_string(), "5511777777777@s.whatsapp.net".into()]);
    assert_eq!(jids(&s.visible_chats("chats", "unread", "")), vec![ANA.to_string()]);
    assert_eq!(jids(&s.visible_chats("chats", "archived", "")), vec![GROUP.to_string()]);
    assert_eq!(jids(&s.visible_chats("channels", "all", "")), vec!["1@newsletter".to_string()]);
    assert_eq!(jids(&s.visible_chats("chats", "all", &search_key("  SOUZA "))), vec![ANA.to_string()]);
    assert_eq!(jids(&s.visible_chats("chats", "archived", &search_key("famí"))), vec![GROUP.to_string()]);
    assert_eq!(search_key(" ÁB "), "áb");
}

#[test]
fn forward_targets_match_names_or_numbers() {
    let mut s = Store::new();
    s.upsert_chat(ANA, Some("Ana"), 30, None, None, None);
    s.upsert_chat("1@newsletter", Some("Canal"), 20, None, None, None);
    s.upsert_chat(GROUP, Some("Família"), 10, None, None, None);
    assert_eq!(jids(&s.forward_targets("")), vec![ANA.to_string(), GROUP.to_string()]);
    assert_eq!(jids(&s.forward_targets("999998")), vec![ANA.to_string()]);
    assert_eq!(jids(&s.forward_targets(" FAM")), vec![GROUP.to_string()]);
    assert!(s.forward_targets("canal").is_empty());
}

#[test]
fn notifications_describe_the_message() {
    let mut m = msg(ANA, "1", 1, "oi");
    assert_eq!(notification_body(&m, Locale::En), "oi");
    m.kind = MessageKind::Video;
    assert_eq!(notification_body(&m, Locale::En), "🎬 Video");
    m.gif = true;
    assert_eq!(notification_body(&m, Locale::En), "🎬 GIF");
    m.sticker = true;
    assert_eq!(notification_body(&m, Locale::Pt), "🩵 Figurinha");
    m.sticker = false;
    m.kind = MessageKind::Doc;
    m.text = "a.pdf".into();
    assert_eq!(notification_body(&m, Locale::En), "📄 a.pdf");
}

fn note(title: &str, jid: &str) -> (String, String, String) {
    (title.into(), "text".into(), jid.into())
}

#[test]
fn a_burst_of_notifications_becomes_one() {
    assert_eq!(notification_summary(&Vec::new(), Locale::En), None);
    assert_eq!(notification_summary(&vec![note("Ana", "a")], Locale::En), Some(note("Ana", "a")));
    let burst = vec![note("Ana", "a"), note("Ana", "a2")];
    assert_eq!(
        notification_summary(&burst, Locale::En),
        Some(("Zapive".into(), "2 new messages from Ana".into(), "a2".into()))
    );
    let many = vec![note("Ana", "a"), note("Bia", "b"), note("Ana", "a"), note("Caio", "c"), note("Duda", "d")];
    assert_eq!(
        notification_summary(&many, Locale::Pt),
        Some(("Zapive".into(), "5 novas mensagens (Ana, Bia, Caio)".into(), "d".into()))
    );
}

#[test]
fn mentions_resolve_through_the_store() {
    let mut s = Store::new();
    s.upsert_contact(ANA, Some("Ana\u{FE0F}"), None);
    let t = s.mention_target("5511999998888");
    assert_eq!((t.name.as_deref(), t.jid.as_str()), (Some("Ana"), ANA));
    let t = s.mention_target("12345678901234");
    assert_eq!((t.name, t.jid.as_str()), (None, "12345678901234@lid"));
    let t = s.mention_target("5511");
    assert_eq!(t.jid, "5511@s.whatsapp.net");
    let m = msg(ANA, "1", 1, "oi @5511999998888 *ok*");
    assert_eq!(s.styled_source(&m).as_deref(), Some("oi [@Ana](5511999998888@s.whatsapp.net) **ok**"));
    assert_eq!(s.styled_source(&msg(ANA, "2", 1, "plain")), None);
    let mut gone = msg(ANA, "3", 1, "*x*");
    gone.deleted = true;
    assert_eq!(s.styled_source(&gone), None);
}

#[test]
fn incoming_messages_count_unread_and_notify() {
    let mut s = Store::new();
    s.upsert_chat(GROUP, Some("Família"), 1, Some(0), None, None);
    let mut m = msg(GROUP, "1", 10, "oi @5511999998888");
    m.sender = "Ana".into();
    m.mentions_me = true;
    match s.take_incoming(m, None, Locale::En) {
        Arrival::Notify(title, text, jid) => {
            assert_eq!(title, "Família");
            assert_eq!(text, "Ana: oi @5511999998888");
            assert_eq!(jid, GROUP);
        },
        _ => panic!("expected a notification"),
    }
    let row = s.chats.get(GROUP).unwrap();
    assert_eq!((row.unread, row.mentioned), (1, true));
    assert!(matches!(s.take_incoming(msg(GROUP, "1", 10, "again"), None, Locale::En), Arrival::Duplicate));
    assert!(matches!(s.take_incoming(msg(GROUP, "2", 11, "open"), Some(GROUP), Locale::En), Arrival::InOpenChat));
    let mut ours = msg(GROUP, "3", 12, "mine");
    ours.from_me = true;
    assert!(matches!(s.take_incoming(ours, None, Locale::En), Arrival::Ours));
    assert_eq!(s.chats.get(GROUP).unwrap().unread, 1);
}

#[test]
fn a_reaction_becomes_the_chats_latest_activity() {
    let mut s = Store::new();
    s.upsert_chat(GROUP, Some("Família"), 1, None, None, None);
    s.upsert_contact(ANA, Some("Ana Souza"), None);
    s.add_message(msg(GROUP, "1", 10, "bom dia"), Locale::En);
    assert!(s.take_reaction(GROUP, "1", ANA, "👍", false, 99, Locale::En));
    let row = s.chats.get(GROUP).unwrap();
    assert_eq!(row.preview, "Ana: Reacted 👍 to: \"bom dia\"");
    assert_eq!(row.timestamp, 99);
    assert!(s.take_reaction(GROUP, "1", "me", "❤", true, 100, Locale::En));
    assert_eq!(s.chats.get(GROUP).unwrap().preview, "✓ Reacted ❤ to: \"bom dia\"");
    // Removing a reaction leaves the row alone.
    assert!(s.take_reaction(GROUP, "1", ANA, "", false, 200, Locale::En));
    assert_eq!(s.chats.get(GROUP).unwrap().timestamp, 100);
    assert!(!s.take_reaction(GROUP, "nope", ANA, "👍", false, 300, Locale::En));
}

#[test]
fn pairing_needs_eight_digits() {
    assert_eq!(pairing_digits("+55 (11) 99999-8888"), Some("5511999998888".to_string()));
    assert_eq!(pairing_digits("123-4567"), None);
    assert_eq!(pairing_digits(""), None);
}

#[test]
fn replies_and_keys_name_the_author() {
    let mut m = msg(ANA, "1", 1, "oi   tudo");
    assert_eq!(reply_header(&m, Locale::En), ("+5511999998888".to_string(), "oi tudo".to_string()));
    m.sender = "Ana".into();
    assert_eq!(reply_header(&m, Locale::En).0, "Ana");
    m.from_me = true;
    assert_eq!(reply_header(&m, Locale::Pt).0, "Você");
    assert_eq!(key_participant(&m, "me@s.whatsapp.net"), None);
    let mut g = msg(GROUP, "2", 1, "x");
    g.sender_jid = ANA.into();
    assert_eq!(key_participant(&g, "me@s.whatsapp.net"), Some(ANA.to_string()));
    g.from_me = true;
    assert_eq!(key_participant(&g, "me@s.whatsapp.net"), Some("me@s.whatsapp.net".to_string()));
    assert_eq!(key_participant(&g, ""), None);
}

#[test]
fn media_fetches_follow_the_kind() {
    let mut m = msg(ANA, "1", 1, "x");
    let nothing = MediaPlan { track: false, thumb: None, fetch: None };
    assert_eq!(media_plan(&m, false, true, false, false), nothing);
    assert_eq!(media_plan(&m, false, true, true, false), MediaPlan { track: true, thumb: Some(true), fetch: None });
    m.kind = MessageKind::Image;
    assert_eq!(media_plan(&m, false, true, false, false).fetch, Some(MediaWant::Image));
    m.sticker = true;
    assert_eq!(media_plan(&m, false, true, false, false).fetch, Some(MediaWant::Sticker));
    assert_eq!(media_plan(&m, true, true, false, false), nothing);
    assert_eq!(media_plan(&m, false, false, false, false), nothing);
    m.sticker = false;
    m.kind = MessageKind::Video;
    assert_eq!(media_plan(&m, false, true, false, true), MediaPlan { track: true, thumb: Some(false), fetch: Some(MediaWant::File) });
    m.gif = true;
    assert_eq!(media_plan(&m, false, true, false, true), MediaPlan { track: true, thumb: None, fetch: Some(MediaWant::Gif) });
    m.kind = MessageKind::Doc;
    assert_eq!(media_plan(&m, false, true, false, false).fetch, Some(MediaWant::File));
    m.deleted = true;
    assert_eq!(media_plan(&m, false, true, false, false), nothing);
}

#[test]
fn opening_a_chat_reads_it_and_finds_its_place() {
    let mut s = Store::new();
    s.upsert_chat(ANA, Some("Ana"), 1, Some(3), None, None);
    s.mark_read(ANA, true);
    assert_eq!(s.chats.get(ANA).unwrap().unread, 0);
    s.mark_read(ANA, false);
    assert_eq!(s.chats.get(ANA).unwrap().unread, 1);
    s.mark_read(ANA, false);
    assert_eq!(s.chats.get(ANA).unwrap().unread, 1);
    let mut first = msg(ANA, "a", 5, "x");
    first.raw = Some(vec![1, 2]);
    s.add_message(first, Locale::En);
    s.add_message(msg(ANA, "b", 6, "y"), Locale::En);
    let list = s.messages_for(ANA);
    assert_eq!(jump_start(&list, "b"), Some(1));
    assert_eq!(jump_start(&list, "a"), None);
    assert_eq!(jump_start(&list, "zz"), None);
    assert_eq!(history_request(&list, false), Some(("a".to_string(), false, 5000)));
    assert_eq!(history_request(&list, true), None);
    assert_eq!(history_request(&Vec::new(), false), None);
}

#[test]
fn the_status_viewer_closes_past_either_end() {
    assert_eq!(status_step(3, 0, 1), Some(1));
    assert_eq!(status_step(3, 2, 1), None);
    assert_eq!(status_step(3, 0, -1), None);
    assert_eq!(status_step(3, 2, -2), Some(0));
}

#[test]
fn a_search_lowers_a_final_sigma_as_a_final_sigma() {
    assert_eq!(search_key(" ΟΔΥΣΣΕΑΣ "), "οδυσσεας");
    assert_eq!(search_key("ΣΑ"), "σα");
}

#[test]
fn warming_a_chat_evicts_the_coldest_that_may_go() {
    let mut s = Store::new();
    s.dirty_jids.insert("c1".to_string());
    let order: Vec<String> = (0..8).map(|i| format!("c{i}")).collect();
    let (warm, evicted) = s.warm_rotation(&order, "n", Some("c0"));
    assert_eq!(evicted, vec!["c2".to_string()]);
    assert_eq!(warm, vec!["c0", "c1", "c3", "c4", "c5", "c6", "c7", "n"]);
    let (warm, evicted) = s.warm_rotation(&warm, "c4", Some("c0"));
    assert!(evicted.is_empty());
    assert_eq!(warm, vec!["c0", "c1", "c3", "c5", "c6", "c7", "n", "c4"]);
}
