use zapive::bridge::{avatar_color, color_idx_of, first_of_run, host_of, initial_of};
use zapive::i18n::Locale;
use zapive::store::Store;
use zapive::store::{MessageKind, StoredMessage};
use zapive::table::Table;

fn bubble(ts: i64, from_me: bool, sender: &str) -> StoredMessage {
    StoredMessage {
        id: "m".into(),
        jid: "g@g.us".into(),
        kind: MessageKind::Text,
        text: "oi".into(),
        from_me,
        sender: sender.into(),
        sender_jid: String::new(),
        forwarded: false,
        deleted: false,
        gif: false,
        starred: false,
        sticker: false,
        mentions: Vec::new(),
        mentions_me: false,
        quote_id: String::new(),
        quote_author: String::new(),
        quote_text: String::new(),
        link_title: String::new(),
        link_desc: String::new(),
        link_url: String::new(),
        timestamp: ts,
        mimetype: String::new(),
        media_w: 0,
        media_h: 0,
        duration_sec: 0,
        status: 0,
        reactions: Table::new(),
        raw: None,
    }
}

#[test]
fn avatars_show_a_capital_initial() {
    assert_eq!(initial_of("  ana"), "A");
    assert_eq!(initial_of("ébano"), "É");
    assert_eq!(initial_of(""), "?");
    assert_eq!(initial_of("   "), "?");
    assert_eq!(initial_of("ßa"), "SS");
}

#[test]
fn avatar_colors_come_from_the_jid() {
    assert_eq!(color_idx_of("a"), 1);
    assert_eq!(color_idx_of("ab"), 3);
    assert_eq!(color_idx_of(""), 0);
    let c = color_idx_of("5511999998888@s.whatsapp.net");
    assert!((0..8).contains(&c));
}

#[test]
fn runs_break_on_side_sender_and_pause() {
    let a = bubble(1000, false, "Ana");
    assert!(first_of_run(None, &a, true));
    assert!(!first_of_run(Some(&a), &bubble(1300, false, "Ana"), true));
    assert!(first_of_run(Some(&a), &bubble(1301, false, "Ana"), true));
    assert!(first_of_run(Some(&a), &bubble(1010, true, "Ana"), true));
    assert!(first_of_run(Some(&a), &bubble(1010, false, "Bia"), true));
    assert!(!first_of_run(Some(&a), &bubble(1010, false, "Bia"), false));
}

#[test]
fn link_cards_name_the_host() {
    assert_eq!(host_of("https://www.example.com/a?b=1"), "example.com");
    assert_eq!(host_of("http://x.io"), "x.io");
    assert_eq!(host_of("not a url"), "");
    assert_eq!(host_of(""), "");
}

#[test]
fn every_jid_gets_a_color_where_it_can() {
    assert_eq!(avatar_color("a"), Some(1));
    assert_eq!(avatar_color("ab"), Some(3));
}

#[test]
fn rows_show_who_said_what_and_when() {
    let mut s = Store::new();
    let group = "120363@g.us";
    let ana = "5511999998888@s.whatsapp.net";
    let mut m = bubble(1000, false, "Ana");
    m.jid = group.into();
    m.sender_jid = ana.into();
    m.link_title = "  Título ".into();
    m.link_url = "https://www.x.io/a".into();
    m.quote_id = "Q".into();
    let r = s.row_facts(&m, None, "me@s.whatsapp.net", "Hoje", None, Locale::En);
    assert_eq!(r.kind, "text");
    assert!(r.first_of_run && r.show_sender && r.group_indent && r.show_avatar);
    assert_eq!(r.sender_label, "~ +5511999998888");
    assert_eq!(r.sender_number, "+55 11 99999-8888");
    assert_eq!(r.day_label, "Hoje");
    assert_eq!(r.sender_initial, "A");
    assert_eq!(r.sender_jid, ana);
    assert_eq!((r.link_title.as_str(), r.link_host.as_str(), r.has_link), ("Título", "x.io", true));
    assert_eq!((r.has_quote, r.quote_name.as_str()), (true, "You"));
    assert_eq!(r.ticks, "");
    // A saved contact is named without the tilde and without a number.
    s.upsert_contact(ana, Some("Ana Souza"), None);
    let prev = bubble(900, false, "Ana");
    let mut next = m;
    next.timestamp = 1100;
    next.deleted = true;
    let mut p = prev;
    p.jid = group.into();
    let r = s.row_facts(&next, Some(&p), "me@s.whatsapp.net", "Hoje", Some("Hoje"), Locale::Pt);
    assert_eq!(r.sender_label, "Ana Souza");
    assert_eq!(r.sender_number, "");
    assert_eq!(r.day_label, "");
    assert!(!r.first_of_run && !r.show_avatar);
    assert_eq!((r.kind.as_str(), r.text.as_str()), ("text", "Essa mensagem foi apagada"));
}
