use zapive::i18n::Locale;
use zapive::store::{LiveMeta, MessageKind, Store};
use zapive::table::Table;
use zapive::wa_map::{history_reactions, quoted_summary, Content, Context, Quote};

const ANA: &str = "5511999998888@s.whatsapp.net";
const GROUP: &str = "120363@g.us";

fn meta<'a>(chat: &str, sender: &str, id: &'a str, from_me: bool, push_name: &'a str) -> LiveMeta<'a> {
    LiveMeta {
        chat: chat.into(),
        sender: sender.into(),
        sender_alt: None,
        recipient_alt: None,
        id,
        from_me,
        is_group: false,
        push_name,
        timestamp: 100,
    }
}

fn text(s: &str) -> Content {
    Content::Conversation { text: s.into() }
}

#[test]
fn a_plain_text_becomes_a_text_message() {
    let mut s = Store::new();
    let m = s
        .normalize(&meta(ANA, ANA, "A1", false, "Ana"), &text("oi\u{FE0F}"), &None, Table::new(), None, 0, Locale::En)
        .unwrap();
    assert_eq!(m.id, "A1");
    assert_eq!(m.jid, ANA);
    assert_eq!(m.text, "oi");
    assert_eq!(m.kind, MessageKind::Text);
    // The announced name is learned and names the sender.
    assert_eq!(m.sender, "Ana");
    assert_eq!(s.push_names.get(ANA).unwrap(), "Ana");
    assert_eq!(m.status, 0);
    assert!(!m.mentions_me);
}

#[test]
fn our_own_messages_are_at_least_acked() {
    let mut s = Store::new();
    let m = s.normalize(&meta(ANA, ANA, "A2", true, ""), &text("x"), &None, Table::new(), None, 0, Locale::En).unwrap();
    assert_eq!(m.status, 2);
    assert_eq!(m.sender, "");
    let m = s.normalize(&meta(ANA, ANA, "A3", true, ""), &text("x"), &None, Table::new(), None, 4, Locale::En).unwrap();
    assert_eq!(m.status, 4);
}

#[test]
fn unusable_chats_ids_and_contents_give_nothing() {
    let mut s = Store::new();
    assert!(s.normalize(&meta("status@broadcast", ANA, "S", false, ""), &text("x"), &None, Table::new(), None, 0, Locale::En).is_none());
    assert!(s.normalize(&meta(ANA, ANA, "", false, ""), &text("x"), &None, Table::new(), None, 0, Locale::En).is_none());
    assert!(s.normalize(&meta(ANA, ANA, "B", false, ""), &Content::Other, &None, Table::new(), None, 0, Locale::En).is_none());
}

#[test]
fn media_contents_fill_in_their_defaults() {
    let mut s = Store::new();
    let sticker = Content::Sticker { width: None, height: Some(90), mimetype: None };
    let m = s.normalize(&meta(ANA, ANA, "S1", false, ""), &sticker, &None, Table::new(), None, 0, Locale::En).unwrap();
    assert_eq!((m.kind, m.sticker, m.media_w, m.media_h), (MessageKind::Image, true, 180, 90));
    assert_eq!(m.mimetype, "image/webp");
    let video = Content::Video {
        caption: Some("clipe".into()),
        width: Some(640),
        height: None,
        mimetype: None,
        seconds: Some(7),
        gif_playback: Some(true),
    };
    let m = s.normalize(&meta(ANA, ANA, "V1", false, ""), &video, &None, Table::new(), None, 0, Locale::En).unwrap();
    assert_eq!((m.kind, m.gif, m.duration_sec, m.media_w, m.media_h), (MessageKind::Video, true, 7, 640, 0));
    assert_eq!(m.text, "clipe");
    assert_eq!(m.mimetype, "video/mp4");
    let doc = Content::Document { file_name: None, mimetype: None };
    let m = s.normalize(&meta(ANA, ANA, "D1", false, ""), &doc, &None, Table::new(), None, 0, Locale::Pt).unwrap();
    assert_eq!((m.kind, m.text.as_str(), m.mimetype.as_str()), (MessageKind::Doc, "Documento", "application/octet-stream"));
    let audio = Content::Audio { seconds: Some(65), mimetype: None };
    let m = s.normalize(&meta(ANA, ANA, "O1", false, ""), &audio, &None, Table::new(), None, 0, Locale::En).unwrap();
    assert_eq!((m.kind, m.text.as_str(), m.duration_sec), (MessageKind::Audio, "1:05", 65));
    assert_eq!(m.mimetype, "audio/ogg");
    let image = Content::Image { caption: None, width: None, height: None, mimetype: Some("image/png".into()) };
    let m = s.normalize(&meta(ANA, ANA, "I1", false, ""), &image, &None, Table::new(), None, 0, Locale::En).unwrap();
    assert_eq!((m.kind, m.text.as_str(), m.mimetype.as_str()), (MessageKind::Image, "", "image/png"));
}

fn link(url: &str, title: &str, desc: &str, thumb: bool) -> Content {
    Content::ExtendedText {
        text: Some(format!("veja {url}")),
        matched_text: Some(url.into()),
        title: Some(title.into()),
        description: Some(desc.into()),
        has_thumb: thumb,
    }
}

#[test]
fn link_cards_are_kept_only_when_they_say_something() {
    let mut s = Store::new();
    let m = s.normalize(&meta(ANA, ANA, "L1", false, ""), &link("https://x.io/a", "Título", "", false), &None, Table::new(), None, 0, Locale::En).unwrap();
    assert_eq!((m.link_title.as_str(), m.link_url.as_str()), ("Título", "https://x.io/a"));
    assert_eq!(m.text, "veja https://x.io/a");
    // A title that is only the host says nothing.
    let m = s.normalize(&meta(ANA, ANA, "L2", false, ""), &link("https://x.io/a", "x.io", "https://x.io/a", false), &None, Table::new(), None, 0, Locale::En).unwrap();
    assert_eq!((m.link_title.as_str(), m.link_url.as_str()), ("", ""));
    // A picture is enough.
    let m = s.normalize(&meta(ANA, ANA, "L3", false, ""), &link("http://x.io", "", "", true), &None, Table::new(), None, 0, Locale::En).unwrap();
    assert_eq!(m.link_url, "http://x.io");
    // No link, no card.
    let m = s.normalize(&meta(ANA, ANA, "L4", false, ""), &link("", "T", "D", true), &None, Table::new(), None, 0, Locale::En).unwrap();
    assert_eq!(m.link_url, "");
}

#[test]
fn mentions_and_replies_come_from_the_context() {
    let mut s = Store::new();
    s.set_self(&vec!["5511000000000@s.whatsapp.net".to_string()]);
    let ctx = Context {
        forwarded: true,
        group_mentions: false,
        mentioned: vec![("5511000000000:3@s.whatsapp.net".into(), "5511000000000@s.whatsapp.net".into())],
        quote: Some(Quote {
            stanza_id: Some("Q1".into()),
            participant: Some(ANA.into()),
            content: Content::Image { caption: Some("praia".into()), width: None, height: None, mimetype: None },
        }),
    };
    let body = Content::ExtendedText { text: Some("@5511000000000 oi".into()), matched_text: None, title: None, description: None, has_thumb: false };
    let m = s.normalize(&meta(GROUP, ANA, "G1", false, ""), &body, &Some(ctx), Table::new(), None, 0, Locale::En).unwrap();
    assert!(m.forwarded);
    assert!(m.mentions_me);
    assert_eq!(m.mentions, vec!["5511000000000:3@s.whatsapp.net".to_string()]);
    assert_eq!(m.quote_id, "Q1");
    assert_eq!(m.quote_author, ANA);
    assert_eq!(m.quote_text, "📷 Photo praia");
    // A group-wide mention mentions us too; our own messages never do.
    let all = Context { forwarded: false, group_mentions: true, mentioned: Vec::new(), quote: None };
    let m = s.normalize(&meta(GROUP, ANA, "G2", false, ""), &text("x"), &Some(all), Table::new(), None, 0, Locale::En).unwrap();
    assert!(m.mentions_me);
    let all = Context { forwarded: false, group_mentions: true, mentioned: Vec::new(), quote: None };
    let m = s.normalize(&meta(GROUP, ANA, "G3", true, ""), &text("x"), &Some(all), Table::new(), None, 0, Locale::En).unwrap();
    assert!(!m.mentions_me);
}

#[test]
fn a_second_identity_merges_into_the_phone_one() {
    let mut s = Store::new();
    let mut m = meta("999@lid", "999@lid", "K1", false, "");
    m.sender_alt = Some(ANA.into());
    let out = s.normalize(&m, &text("oi"), &None, Table::new(), None, 0, Locale::En).unwrap();
    assert_eq!(out.jid, ANA);
    assert_eq!(out.sender_jid, ANA);
    assert_eq!(s.canon("999@lid"), ANA);
}

#[test]
fn quoted_messages_read_as_one_line() {
    assert_eq!(quoted_summary(&text(&"a".repeat(200)), Locale::En).chars().count(), 120);
    assert_eq!(quoted_summary(&Content::Sticker { width: None, height: None, mimetype: None }, Locale::En), "🩵 Sticker");
    assert_eq!(quoted_summary(&Content::Audio { seconds: None, mimetype: None }, Locale::Pt), "🎵 Áudio");
    assert_eq!(
        quoted_summary(&Content::Video { caption: Some(String::new()), width: None, height: None, mimetype: None, seconds: None, gif_playback: None }, Locale::En),
        "🎬 Video"
    );
    assert_eq!(quoted_summary(&Content::Document { file_name: Some("a.pdf".into()), mimetype: None }, Locale::En), "📄 a.pdf");
    assert_eq!(quoted_summary(&Content::Other, Locale::En), "");
}

#[test]
fn status_updates_show_their_text_or_caption() {
    let mut s = Store::new();
    let st = s.status_entry(ANA, "S1", false, "Ana", 50, &Content::Video { caption: Some("oi".into()), width: None, height: None, mimetype: None, seconds: None, gif_playback: None }, None).unwrap();
    assert_eq!((st.kind, st.text.as_str(), st.sender.as_str(), st.jid.as_str()), (MessageKind::Image, "oi", "Ana", ANA));
    assert_eq!(s.contacts.get(ANA).unwrap(), "Ana");
    assert!(s.status_entry(ANA, "S2", false, "", 50, &Content::Audio { seconds: None, mimetype: None }, None).is_none());
    let mut fresh = Store::new();
    let st = fresh.status_entry(ANA, "S3", false, "", 50, &text("x"), None).unwrap();
    assert_eq!(st.sender, "+5511999998888");
    assert!(fresh.status_entry("", "S4", false, "Bia", 50, &text("x"), None).is_none());
}

#[test]
fn synced_reactions_keep_the_latest_per_reactor() {
    let r = history_reactions(&vec![
        (Some("👍".into()), Some(ANA.into())),
        (Some("".into()), Some("x@s.whatsapp.net".into())),
        (None, None),
        (Some("❤\u{FE0F}".into()), None),
        (Some("😂".into()), Some(ANA.into())),
    ]);
    assert_eq!(r.len(), 2);
    assert_eq!(r.get(ANA).unwrap(), "😂");
    assert_eq!(r.get("?").unwrap(), "❤");
}
