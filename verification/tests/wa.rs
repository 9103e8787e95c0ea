use zapive::wa::{
    format_pair_code, link_step, receipt_status, urlencode, LinkAction, LinkEvent, LinkState, ReceiptKind, MAX_FAILURES,
};

#[test]
fn query_values_are_escaped() {
    assert_eq!(urlencode("a b&c"), "a+b%26c");
    assert_eq!(urlencode("Az09-_.~"), "Az09-_.~");
    assert_eq!(urlencode("ã"), "%C3%A3");
    assert_eq!(urlencode(""), "");
}

#[test]
fn pairing_codes_split_in_two() {
    assert_eq!(format_pair_code("ABCD1234"), "ABCD-1234");
    assert_eq!(format_pair_code("ABC"), "ABC");
    assert_eq!(format_pair_code("ABCD12345"), "ABCD12345");
}

#[test]
fn the_link_retries_until_too_many_failures() {
    let mut s = LinkState { failures: 0, stopped: false };
    for n in 1..MAX_FAILURES {
        let (next, action) = link_step(s, LinkEvent::Disconnected { clean: false });
        assert_eq!(action, LinkAction::Reconnecting);
        assert_eq!(next.failures, n);
        s = next;
    }
    let (s, action) = link_step(s, LinkEvent::ConnectFailure { logged_out: false });
    assert_eq!(action, LinkAction::HaltRetries);
    assert!(s.stopped);
    // Stopped: disconnects are ignored; a connection starts over.
    assert_eq!(link_step(s, LinkEvent::Disconnected { clean: false }), (s, LinkAction::Nothing));
    assert_eq!(link_step(s, LinkEvent::Connected), (LinkState { failures: 0, stopped: false }, LinkAction::Open));
}

#[test]
fn the_link_reacts_to_the_session_ending() {
    let s = LinkState { failures: 2, stopped: false };
    assert_eq!(link_step(s, LinkEvent::StreamReplaced), (LinkState { failures: 2, stopped: true }, LinkAction::Conflict));
    assert_eq!(link_step(s, LinkEvent::LoggedOut).1, LinkAction::SessionEnded);
    assert_eq!(link_step(s, LinkEvent::ConnectFailure { logged_out: true }).1, LinkAction::ResetSession);
    assert_eq!(link_step(s, LinkEvent::Disconnected { clean: true }), (s, LinkAction::Nothing));
}

#[test]
fn receipts_move_the_delivery_status() {
    assert_eq!(receipt_status(ReceiptKind::Delivered), Some(3));
    assert_eq!(receipt_status(ReceiptKind::ReadSelf), Some(4));
    assert_eq!(receipt_status(ReceiptKind::Played), Some(5));
    assert_eq!(receipt_status(ReceiptKind::Other), None);
}
