use zapive::search::{
    fetch_count, fold, fts_query, indexable, rank_hits, rank_of, snippet, snippet_fits, term, terms_of, to_rebuild, Hit, PER_CHAT_MAX,
};
use zapive::store::{MessageKind, StoredMessage};
use zapive::table::Table;

#[test]
fn fold_strips_accents_and_case() {
    assert_eq!(fold("João Ação ÀÉÎÕÜ"), "joao acao aeiou");
}

#[test]
fn term_prefix_is_a_string_prefix_of_the_whole_word() {
    let key = [7u8; 32];
    let whole = term(&key, "reuniao");
    for n in 1..="reuniao".chars().count() {
        let prefix: String = "reuniao".chars().take(n).collect();
        assert!(whole.starts_with(&term(&key, &prefix)), "prefix {n} should match");
    }
}

#[test]
fn terms_are_two_base32_chars_per_char_up_to_a_cap() {
    let key = [7u8; 32];
    let t = term(&key, "reuniao");
    assert_eq!(t.len(), 14);
    assert!(t.chars().all(|c| c.is_ascii_lowercase() || ('2'..='7').contains(&c)));
    let long: String = "a".repeat(40);
    assert_eq!(term(&key, &long).len(), 48);
    assert_eq!(term(&key, ""), "");
    // Another key gives other terms; the word is not in its term.
    assert_ne!(term(&[8u8; 32], "reuniao"), t);
    assert_ne!(t, "reuniao");
}

#[test]
fn every_word_of_a_body_becomes_a_term() {
    let key = [7u8; 32];
    let terms = terms_of(&key, "ola, mundo! ola");
    let want = format!("{} {} {}", term(&key, "ola"), term(&key, "mundo"), term(&key, "ola"));
    assert_eq!(terms, want);
    assert_eq!(terms_of(&key, "  ,,  "), "");
}

#[test]
fn the_query_ands_its_words_and_opens_the_last() {
    let key = [7u8; 32];
    let a = term(&key, "reuniao");
    let b = term(&key, "amanha");
    assert_eq!(fts_query(&key, "Reunião amanhã"), Some(format!("\"{a}\" AND \"{b}\"*")));
    assert_eq!(fts_query(&key, "reuniao amanha "), Some(format!("\"{a}\" AND \"{b}\"")));
    assert_eq!(fts_query(&key, "reuni"), Some(format!("\"{}\"*", term(&key, "reuni"))));
    assert_eq!(fts_query(&key, "   "), None);
    assert_eq!(fts_query(&key, ""), None);
}

#[test]
fn a_whole_phrase_outranks_scattered_words() {
    assert_eq!(rank_of("reuniao amanha as 10", "reuniao amanha", &["reuniao", "amanha"]), Some(2));
    assert_eq!(rank_of("amanha tem reuniao", "reuniao amanha", &["reuniao", "amanha"]), Some(1));
    assert_eq!(rank_of("nada a ver", "reuniao amanha", &["reuniao", "amanha"]), None);
    // A single word that is missing does not rank.
    assert_eq!(rank_of("nada", "xyz", &["xyz"]), None);
    assert_eq!(rank_of("tem reuniao", "reuni", &["reuni"]), Some(2));
}

#[test]
fn candidates_are_over_fetched_within_bounds() {
    assert_eq!(fetch_count(10), 40);
    assert_eq!(fetch_count(0), 1);
    assert_eq!(fetch_count(1), 4);
    assert_eq!(fetch_count(600), 2000);
    assert_eq!(fetch_count(2000), 2000);
}

#[test]
fn snippets_window_the_first_match() {
    assert_eq!(snippet("Reunião amanhã às 10", "reuniao amanha as 10", "reuniao"), "Reunião amanhã às 10");
    let text = format!("{}alvo{}", "x ".repeat(30), " y".repeat(30));
    let norm = text.clone();
    let s = snippet(&text, &norm, "alvo");
    assert!(s.starts_with('…'));
    assert!(s.ends_with('…'));
    assert!(s.contains("alvo"));
    assert_eq!(snippet("a   b\n c", "a   b\n c", "zz"), "a b c");
}

fn message(kind: MessageKind, text: &str) -> StoredMessage {
    StoredMessage {
        id: "1".into(),
        jid: "a@g.us".into(),
        kind,
        text: text.into(),
        from_me: false,
        sender: String::new(),
        sender_jid: String::new(),
        forwarded: false,
        deleted: false,
        gif: false,
        starred: false,
        sticker: false,
        mentions: Vec::new(),
        mentions_me: false,
        quote_id: String::new(),
        quote_author: String::new(),
        quote_text: String::new(),
        link_title: String::new(),
        link_desc: String::new(),
        link_url: String::new(),
        timestamp: 1,
        mimetype: String::new(),
        media_w: 0,
        media_h: 0,
        duration_sec: 0,
        status: 0,
        reactions: Table::new(),
        raw: None,
    }
}

#[test]
fn captions_and_file_names_are_searchable_voice_notes_are_not() {
    assert_eq!(indexable(&message(MessageKind::Text, "oi")), Some("oi".to_string()));
    assert_eq!(indexable(&message(MessageKind::Doc, "a.pdf")), Some("a.pdf".to_string()));
    assert_eq!(indexable(&message(MessageKind::Image, "  ")), None);
    assert_eq!(indexable(&message(MessageKind::Audio, "0:05")), None);
    let mut gone = message(MessageKind::Text, "x");
    gone.deleted = true;
    assert_eq!(indexable(&gone), None);
}

#[test]
fn a_window_fits_unless_the_text_is_shorter_than_its_fold() {
    assert!(snippet_fits("Reunião amanhã", "reuniao amanha", "amanha"));
    assert!(snippet_fits("", "", "x"));
    // A folded body longer than its text can place the match past the end.
    let norm = format!("{}alvo", "x".repeat(100));
    assert!(!snippet_fits("curto", &norm, "alvo"));
}

#[test]
fn a_rebuild_keeps_the_newest_messages_with_text() {
    let mut msgs = Vec::new();
    for i in 0..(PER_CHAT_MAX + 5) {
        let mut m = message(MessageKind::Text, "oi");
        m.id = format!("{i}");
        msgs.push(m);
    }
    msgs.insert(3, message(MessageKind::Audio, "voice"));
    msgs.insert(7, message(MessageKind::Text, "   "));
    let out = to_rebuild(&msgs);
    assert_eq!(out.len(), PER_CHAT_MAX);
    assert_eq!(out[0].id, "5");
    assert_eq!(out[PER_CHAT_MAX - 1].id, format!("{}", PER_CHAT_MAX + 4));
    let few = vec![message(MessageKind::Audio, "x"), message(MessageKind::Doc, "report.pdf")];
    let out = to_rebuild(&few);
    assert_eq!(out.len(), 1);
    assert_eq!(out[0].text, "report.pdf");
}

fn hit(id: &str, ts: i64) -> Hit {
    Hit {
        jid: "a@s.whatsapp.net".into(),
        id: id.into(),
        ts,
        snippet: String::new(),
        from_me: false,
        sender: String::new(),
        sender_jid: String::new(),
    }
}

#[test]
fn hits_come_phrase_first_then_newest() {
    let hits = || vec![(1, hit("a", 5)), (2, hit("b", 1)), (1, hit("c", 9)), (2, hit("d", 3)), (1, hit("e", 5))];
    let ids: Vec<String> = rank_hits(hits(), 10).into_iter().map(|h| h.id).collect();
    assert_eq!(ids, vec!["d", "b", "c", "a", "e"]);
    let ids: Vec<String> = rank_hits(hits(), 2).into_iter().map(|h| h.id).collect();
    assert_eq!(ids, vec!["d", "b"]);
    assert!(rank_hits(Vec::new(), 3).is_empty());
}

#[test]
fn folding_goes_char_by_char() {
    assert_eq!(fold("AçÃo É"), format!("{}{}", fold("AçÃ"), fold("o É")));
    let latin = "ÀÉÎÕÜçñ HELLO";
    assert_eq!(fold(latin).chars().count(), latin.chars().count());
    assert!(fold(latin).is_ascii());
    assert_eq!(fold("Hello, World!"), "hello, world!");
}
