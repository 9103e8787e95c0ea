use zapive::i18n::{t, ta, Locale};

#[test]
fn strings_read_in_each_language() {
    assert_eq!(t(Locale::En, "status.connected"), "Connected");
    assert_eq!(t(Locale::Pt, "status.connected"), "Conectado");
    assert_eq!(t(Locale::Pt, "day.yesterday"), "Ontem");
}

#[test]
fn placeholders_take_the_arguments() {
    assert_eq!(ta(Locale::En, "status.connectFailed", &["timeout"]), "Failed to connect: timeout");
    assert_eq!(ta(Locale::Pt, "notify.newMessages", &["3", "Ana"]), "3 novas mensagens (Ana)");
    // A missing argument leaves its placeholder.
    assert_eq!(ta(Locale::En, "notify.fromOne", &["2"]), "2 new messages from {1}");
}

#[test]
fn an_unknown_key_reads_as_itself() {
    assert_eq!(t(Locale::En, "no.such.key"), "no.such.key");
    assert_eq!(t(Locale::Pt, "no.such.key"), "no.such.key");
}
