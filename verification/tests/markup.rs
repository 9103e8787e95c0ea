use zapive::markup::{
    has_markup, mention_query, render_plain, render_plain_with, target_at, target_at_with, to_markdown,
    to_markdown_with, MentionTarget,
};

fn ana(num: &str) -> MentionTarget {
    MentionTarget { name: Some("Ana".into()), jid: format!("{num}@s.whatsapp.net") }
}

#[test]
fn mention_query_finds_the_word_at_the_cursor() {
    assert_eq!(mention_query("@", 1), Some((0, 1)));
    assert_eq!(mention_query("oi @jo", 6), Some((3, 6)));
    assert_eq!(mention_query("oi @jo tudo", 6), Some((3, 6)));
    // Cursor past a space: no longer inside the mention.
    assert_eq!(mention_query("oi @jo tudo", 7), None);
    // An "@" glued to a word is an address, not a mention.
    assert_eq!(mention_query("mail@x", 6), None);
    // Multi-byte text before the cursor keeps byte offsets valid.
    assert_eq!(mention_query("ação @ma", 10), Some((7, 10)));
    assert_eq!(mention_query("", 0), None);
}

#[test]
fn plain_rendering_matches_the_styled_text() {
    let r = render_plain("oi @5511999 veja *https://x.io/a* fim", &ana);
    assert_eq!(r.text, "oi @Ana veja https://x.io/a fim");
    assert_eq!(r.spans[0], (3, 7, "5511999@s.whatsapp.net".to_string()));
    assert_eq!(r.spans[1], (13, 27, "https://x.io/a".to_string()));
    assert_eq!(target_at("oi @5511999 veja *https://x.io/a* fim", 20, &ana).as_deref(), Some("https://x.io/a"));
    assert_eq!(target_at("oi @5511999 veja *https://x.io/a* fim", 9, &ana), None);
}

#[test]
fn markdown_keeps_links_and_mentions() {
    let md = to_markdown("oi @5511999 veja https://x.io/a_b *ok*", &ana);
    assert!(md.contains("[@Ana](5511999@s.whatsapp.net)"));
    assert!(md.contains("(https://x.io/a_b)"));
    assert!(md.ends_with("**ok**"));
}

// Blank lines and indentation would vanish in CommonMark and the
// plain overlay would sit one line lower than the styled text.
#[test]
fn markdown_keeps_every_line() {
    let md = to_markdown("*a*\n\n  b\n    c", &ana);
    assert_eq!(md, "**a**\n\u{a0}\n\u{a0}\u{a0}b\n\u{a0}\u{a0}\u{a0}\u{a0}c");
    assert_eq!(md.split('\n').count(), render_plain("*a*\n\n  b\n    c", &ana).text.split('\n').count());
}

// Markers that WhatsApp leaves literal stay literal in both renderings.
#[test]
fn loose_markers_are_literal_in_both() {
    assert_eq!(render_plain("2 * 3 * 4", &ana).text, "2 * 3 * 4");
    assert_eq!(to_markdown("2 * 3 * 4", &ana), "2 \\* 3 \\* 4");
    assert_eq!(render_plain("snake_case_name", &ana).text, "snake_case_name");
    assert_eq!(to_markdown("snake_case_name", &ana), "snake\\_case\\_name");
    assert_eq!(render_plain("_it_ ok", &ana).text, "it ok");
    assert_eq!(to_markdown("_it_ ok", &ana), "*it* ok");
}

#[test]
fn html_looking_text_stays_literal() {
    assert_eq!(to_markdown("a <b> & c", &ana), "a \\<b\\> \\& c");
}

#[test]
fn code_spans_keep_their_lines() {
    assert_eq!(to_markdown("```x\n y```", &ana), "`x`\n`\u{a0}y`");
    assert_eq!(render_plain("```x\n y```", &ana).text, "x\n y");
}

#[test]
fn only_styled_text_needs_the_styled_rendering() {
    assert!(has_markup("oi *tudo* bem"));
    assert!(has_markup("fala @5511999"));
    assert!(has_markup("veja https://x.io"));
    assert!(!has_markup("oi tudo bem"));
    assert!(!has_markup("2 * 3 * 4"));
    assert!(!has_markup(""));
}

#[test]
fn unknown_mentions_show_their_number() {
    let nobody = |n: &str| MentionTarget { name: None, jid: format!("{n}@s.whatsapp.net") };
    let r = render_plain("oi @5511999", &nobody);
    assert_eq!(r.text, "oi @5511999");
    assert_eq!(r.spans, vec![(3, 11, "5511999@s.whatsapp.net".to_string())]);
    let targets = vec![ana("5511999")];
    assert_eq!(render_plain_with("oi @5511999", &targets).text, "oi @Ana");
    assert_eq!(to_markdown_with("oi @5511999", &targets), "oi [@Ana](5511999@s.whatsapp.net)");
    assert_eq!(target_at_with("oi @5511999", 4, &targets).as_deref(), Some("5511999@s.whatsapp.net"));
}

#[test]
fn mention_ids_come_in_order() {
    assert_eq!(zapive::markup::mention_ids("oi @12345 e @456789 @12"), vec!["12345".to_string(), "456789".to_string()]);
    assert!(zapive::markup::mention_ids("nada").is_empty());
}

#[test]
fn text_without_markup_renders_as_itself_and_escapes_in_markdown() {
    let plain = "2 * 3 = 6 (ok) #1 <b>";
    assert!(!has_markup(plain));
    let r = render_plain(plain, &ana);
    assert_eq!(r.text, plain);
    assert!(r.spans.is_empty());
    assert_eq!(to_markdown(plain, &ana), "2 \\* 3 = 6 \\(ok\\) \\#1 \\<b\\>");
}

#[test]
fn plain_spans_are_ordered_and_cover_their_targets() {
    let r = render_plain("ver https://a.io e @5511999 e http://b.io/x ç", &ana);
    assert_eq!(r.spans.len(), 3);
    for w in r.spans.windows(2) {
        assert!(w[0].1 <= w[1].0);
    }
    for (s, e, target) in &r.spans {
        assert!(s < e && *e <= r.text.len());
        assert!(r.text.is_char_boundary(*s) && r.text.is_char_boundary(*e));
        let under = &r.text[*s..*e];
        assert!(under == target || under.starts_with('@'));
    }
}

#[test]
fn the_query_is_the_last_at_word_before_the_cursor() {
    assert_eq!(mention_query("oi @ana", 7), Some((3, 7)));
    assert_eq!(mention_query("oi@ana", 6), None);
    assert_eq!(mention_query("@a b", 4), None);
    assert_eq!(mention_query("é @x", 3), None);
    assert_eq!(mention_query("é @x", 99), Some((3, 5)));
}

#[test]
fn a_mention_span_reads_the_name_and_leads_to_the_jid() {
    let r = render_plain("oi @5511999 e @12345", &|n: &str| {
        if n == "5511999" { ana(n) } else { MentionTarget { name: None, jid: format!("{n}@lid") } }
    });
    assert_eq!(r.text, "oi @Ana e @12345");
    let spans: Vec<(String, String)> = r.spans.iter().map(|(s, e, t)| (r.text[*s..*e].to_string(), t.clone())).collect();
    assert_eq!(spans, vec![("@Ana".to_string(), "5511999@s.whatsapp.net".to_string()), ("@12345".to_string(), "12345@lid".to_string())]);
}
