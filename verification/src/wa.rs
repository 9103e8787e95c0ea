//! The WhatsApp session's own decisions: how the link reacts to what the
//! connection reports, what a receipt means for a message, what a media
//! download is for, query-string encoding and how a pairing code is shown.
use vstd::prelude::*;
use vstd::string::StringSliceAdditionalSpecFns;
use crate::text::{chars_of, string_of, char_len, char_len_of, byte_len, lemma_byte_len_push,
    lemma_byte_len_is_encoding_len, push_range};

verus! {

broadcast use vstd::string::group_string_axioms;

/// What a media download is for.
#[derive(Clone, Copy, PartialEq, Eq, Structural, Debug)]
pub enum MediaWant {
    /// Decode the full image for the bubble.
    Image,
    /// Decode (possibly animated) sticker frames.
    Sticker,
    /// Extract looping GIF frames from the clip.
    Gif,
    /// Just cache the file (audio, documents, video clips).
    File,
}

/// A byte that a query string carries as it is.
pub open spec fn unreserved(b: u8) -> bool {
    (65 <= b <= 90) || (97 <= b <= 122) || (48 <= b <= 57) || b == 45 || b == 95 || b == 46 || b == 126
}

/// The uppercase hex digit of a value below 16.
pub open spec fn upper_hex(n: int) -> char {
    seq!['0', '1', '2', '3', '4', '5', '6', '7', '8', '9', 'A', 'B', 'C', 'D', 'E', 'F'][n]
}

/// One byte in a query string: itself, "+" for a space, else "%XX".
pub open spec fn url_byte(b: u8) -> Seq<char> {
    if unreserved(b) {
        seq![b as char]
    } else if b == 32 {
        seq!['+']
    } else {
        seq!['%', upper_hex((b / 16) as int), upper_hex((b % 16) as int)]
    }
}

/// The query-string form of some bytes.
pub open spec fn url_encoded(b: Seq<u8>) -> Seq<char>
    decreases b.len(),
{
    if b.len() == 0 {
        seq![]
    } else {
        url_encoded(b.drop_last()) + url_byte(b.last())
    }
}

fn upper_hex_of(n: u8) -> (c: char)
    requires
        n < 16,
    ensures
        c == upper_hex(n as int),
{
    let digits = ['0', '1', '2', '3', '4', '5', '6', '7', '8', '9', 'A', 'B', 'C', 'D', 'E', 'F'];
    assert(digits@ =~= seq!['0', '1', '2', '3', '4', '5', '6', '7', '8', '9', 'A', 'B', 'C', 'D', 'E', 'F']);
    digits[n as usize]
}

/// The text as a query-string value: unreserved bytes as they are, spaces
/// as "+", every other byte of its UTF-8 form as "%XX".
pub fn urlencode(s: &str) -> (r: String)
    ensures
        r@ == url_encoded(s.spec_bytes()),
{
    let b = s.as_bytes();
    let n = b.len();
    let mut out: Vec<char> = Vec::new();
    let mut i: usize = 0;
    while i < n
        invariant
            n == b@.len(),
            i <= n,
            out@ == url_encoded(b@.take(i as int)),
        decreases n - i,
    {
        let x = b[i];
        if (65 <= x && x <= 90) || (97 <= x && x <= 122) || (48 <= x && x <= 57) || x == 45 || x == 95
            || x == 46 || x == 126 {
            out.push(x as char);
        } else if x == 32 {
            out.push('+');
        } else {
            out.push('%');
            out.push(upper_hex_of(x / 16));
            out.push(upper_hex_of(x % 16));
        }
        assert(b@.take(i + 1).drop_last() =~= b@.take(i as int));
        assert(out@ =~= url_encoded(b@.take(i + 1)));
        i = i + 1;
    }
    assert(b@.take(n as int) =~= b@);
    string_of(&out)
}

/// Where in the characters the first `bytes` bytes end, if they end on a
/// character.
pub open spec fn char_at_byte(s: Seq<char>, bytes: nat) -> int {
    choose|k: int| 0 <= k <= s.len() && byte_len(s.take(k)) == bytes
}

/// An eight-byte pairing code as "ABCD-EFGH"; anything else as it is.
pub open spec fn pair_code_of(s: Seq<char>) -> Seq<char> {
    if byte_len(s) == 8 {
        let k = char_at_byte(s, 4);
        s.take(k) + seq!['-'] + s.skip(k)
    } else {
        s
    }
}

proof fn lemma_byte_len_take_grows(s: Seq<char>, a: int, b: int)
    requires
        0 <= a < b <= s.len(),
    ensures
        byte_len(s.take(a)) < byte_len(s.take(b)),
    decreases b - a,
{
    lemma_byte_len_push(s.take(b - 1), s[b - 1]);
    assert(s.take(b - 1).push(s[b - 1]) =~= s.take(b));
    if a < b - 1 {
        lemma_byte_len_take_grows(s, a, b - 1);
    }
}

fn eight_bytes(v: &Vec<char>) -> (r: bool)
    ensures
        r == (byte_len(v@) == 8),
{
    let n = v.len();
    let mut k: usize = 0;
    let mut bytes: usize = 0;
    while k < n
        invariant
            n == v@.len(),
            k <= n,
            bytes == byte_len(v@.take(k as int)),
            bytes <= 8,
        decreases n - k,
    {
        proof {
            lemma_byte_len_push(v@.take(k as int), v@[k as int]);
            assert(v@.take(k as int).push(v@[k as int]) =~= v@.take(k + 1));
        }
        bytes = bytes + char_len_of(v[k]);
        k = k + 1;
        if bytes > 8 {
            proof {
                if k < n {
                    lemma_byte_len_take_grows(v@, k as int, n as int);
                }
                assert(v@.take(n as int) =~= v@);
            }
            return false;
        }
    }
    assert(v@.take(n as int) =~= v@);
    bytes == 8
}

/// The pairing code as it is shown: "ABCD-EFGH" when it is eight bytes
/// (whose first four end on a character).
pub fn format_pair_code(code: &str) -> (r: String)
    requires
        byte_len(code@) == 8 ==> exists|k: int| 0 <= k <= code@.len() && byte_len(code@.take(k)) == 4,
    ensures
        r@ == pair_code_of(code@),
{
    proof {
        lemma_byte_len_is_encoding_len(code@);
    }
    let v = chars_of(code);
    if !eight_bytes(&v) {
        return string_of(&v);
    }
    let n = v.len();
    let mut k: usize = 0;
    let mut bytes: usize = 0;
    while k < n && bytes < 4
        invariant
            n == v@.len(),
            v@ == code@,
            k <= n,
            bytes == byte_len(v@.take(k as int)),
            bytes <= 8,
            byte_len(v@) == 8,
            k > 0 ==> byte_len(v@.take(k - 1)) < 4,
        decreases n - k,
    {
        proof {
            lemma_byte_len_push(v@.take(k as int), v@[k as int]);
            assert(v@.take(k as int).push(v@[k as int]) =~= v@.take(k + 1));
            if k + 1 < n {
                lemma_byte_len_take_grows(v@, k + 1, n as int);
            }
            assert(v@.take(n as int) =~= v@);
        }
        bytes = bytes + char_len_of(v[k]);
        k = k + 1;
    }
    proof {
        let w = choose|w: int| 0 <= w <= code@.len() && byte_len(code@.take(w)) == 4;
        if bytes == 0 {
            assert(v@.take(n as int) =~= v@);
        }
        if w < k {
            if w < k - 1 {
                lemma_byte_len_take_grows(v@, w, k - 1);
            }
        } else if w > k {
            lemma_byte_len_take_grows(v@, k as int, w);
            if k == n {
                assert(false);
            }
        }
        assert(w == k);
        assert(char_at_byte(v@, 4) == k) by {
            let c = char_at_byte(v@, 4);
            if c < k {
                if c < k - 1 {
                    lemma_byte_len_take_grows(v@, c, k - 1);
                }
            } else if c > k {
                lemma_byte_len_take_grows(v@, k as int, c);
            }
        }
    }
    let mut out: Vec<char> = Vec::new();
    push_range(&mut out, &v, 0, k);
    out.push('-');
    push_range(&mut out, &v, k, n);
    assert(out@ =~= pair_code_of(code@));
    string_of(&out)
}

// ---------------------------------------------------------------------------
// The link
// ---------------------------------------------------------------------------

/// Failed connection attempts in a row after which retrying stops.
pub const MAX_FAILURES: u32 = 5;

/// Where the link to WhatsApp stands: failures in a row, and whether
/// retrying has stopped.
#[derive(Clone, Copy, PartialEq, Eq, Structural, Debug)]
pub struct LinkState {
    pub failures: u32,
    pub stopped: bool,
}

/// What the connection reports.
#[derive(Clone, Copy, PartialEq, Eq, Structural, Debug)]
pub enum LinkEvent {
    Connected,
    /// Another desktop session took over the account.
    StreamReplaced,
    LoggedOut,
    ConnectFailure { logged_out: bool },
    Disconnected { clean: bool },
}

/// What the app does about it.
#[derive(Clone, Copy, PartialEq, Eq, Structural, Debug)]
pub enum LinkAction {
    /// Show the session as open.
    Open,
    /// Ask the user what to do about the other session.
    Conflict,
    /// Say the session ended and start a new one.
    SessionEnded,
    /// Start a new session.
    ResetSession,
    /// Say the link is reconnecting.
    Reconnecting,
    /// Stop retrying and tell the user.
    HaltRetries,
    Nothing,
}

/// One more failure: past `MAX_FAILURES` in a row, retrying stops.
pub open spec fn counted(s: LinkState) -> (LinkState, LinkAction) {
    let n = s.failures + 1;
    if n >= MAX_FAILURES {
        (LinkState { failures: n as u32, stopped: true }, LinkAction::HaltRetries)
    } else {
        (LinkState { failures: n as u32, stopped: s.stopped }, LinkAction::Reconnecting)
    }
}

/// How the link moves on an event, and what the app does.
pub open spec fn link_step_of(s: LinkState, e: LinkEvent) -> (LinkState, LinkAction) {
    match e {
        LinkEvent::Connected => (LinkState { failures: 0, stopped: false }, LinkAction::Open),
        LinkEvent::StreamReplaced => (LinkState { stopped: true, ..s }, LinkAction::Conflict),
        LinkEvent::LoggedOut => (LinkState { stopped: true, ..s }, LinkAction::SessionEnded),
        LinkEvent::ConnectFailure { logged_out } => if logged_out {
            (LinkState { stopped: true, ..s }, LinkAction::ResetSession)
        } else {
            counted(s)
        },
        LinkEvent::Disconnected { clean } => if !clean && !s.stopped {
            counted(s)
        } else {
            (s, LinkAction::Nothing)
        },
    }
}

fn count_failure(s: LinkState) -> (r: (LinkState, LinkAction))
    requires
        s.failures < u32::MAX,
    ensures
        r == counted(s),
{
    let n = s.failures + 1;
    if n >= MAX_FAILURES {
        (LinkState { failures: n, stopped: true }, LinkAction::HaltRetries)
    } else {
        (LinkState { failures: n, stopped: s.stopped }, LinkAction::Reconnecting)
    }
}

/// How the link moves on an event (the failure count must have room for
/// one more), and what the app does.
pub fn link_step(s: LinkState, e: LinkEvent) -> (r: (LinkState, LinkAction))
    requires
        s.failures < u32::MAX,
    ensures
        r == link_step_of(s, e),
{
    match e {
        LinkEvent::Connected => (LinkState { failures: 0, stopped: false }, LinkAction::Open),
        LinkEvent::StreamReplaced => (LinkState { failures: s.failures, stopped: true }, LinkAction::Conflict),
        LinkEvent::LoggedOut => (LinkState { failures: s.failures, stopped: true }, LinkAction::SessionEnded),
        LinkEvent::ConnectFailure { logged_out } => if logged_out {
            (LinkState { failures: s.failures, stopped: true }, LinkAction::ResetSession)
        } else {
            count_failure(s)
        },
        LinkEvent::Disconnected { clean } => if !clean && !s.stopped {
            count_failure(s)
        } else {
            (s, LinkAction::Nothing)
        },
    }
}

/// Retrying stops at the failure that makes `MAX_FAILURES` in a row; a
/// connection starts the count over; once stopped, a disconnect changes
/// nothing.
pub proof fn law_retrying_stops_and_restarts(s: LinkState, e: LinkEvent)
    ensures
        s.failures + 1 >= MAX_FAILURES && !s.stopped && (e == LinkEvent::Disconnected { clean: false } || e
            == LinkEvent::ConnectFailure { logged_out: false }) ==> link_step_of(s, e) == (
        LinkState { failures: (s.failures + 1) as u32, stopped: true },
        LinkAction::HaltRetries,
    ),
        link_step_of(s, LinkEvent::Connected).0 == (LinkState { failures: 0, stopped: false }),
        s.stopped ==> link_step_of(s, LinkEvent::Disconnected { clean: false }) == (s, LinkAction::Nothing),
{
}

// ---------------------------------------------------------------------------
// Receipts
// ---------------------------------------------------------------------------

/// The kinds of receipt the server sends.
#[derive(Clone, Copy, PartialEq, Eq, Structural, Debug)]
pub enum ReceiptKind {
    Delivered,
    Read,
    ReadSelf,
    Played,
    PlayedSelf,
    Other,
}

/// The delivery status a receipt gives a message (3 delivered, 4 read, 5
/// played); none for a receipt that does not move it.
pub open spec fn receipt_status_of(k: ReceiptKind) -> Option<u32> {
    match k {
        ReceiptKind::Delivered => Some(3),
        ReceiptKind::Read | ReceiptKind::ReadSelf => Some(4),
        ReceiptKind::Played | ReceiptKind::PlayedSelf => Some(5),
        ReceiptKind::Other => None,
    }
}

/// The delivery status a receipt gives a message.
pub fn receipt_status(k: ReceiptKind) -> (r: Option<u32>)
    ensures
        r == receipt_status_of(k),
{
    match k {
        ReceiptKind::Delivered => Some(3),
        ReceiptKind::Read | ReceiptKind::ReadSelf => Some(4),
        ReceiptKind::Played | ReceiptKind::PlayedSelf => Some(5),
        ReceiptKind::Other => None,
    }
}

} // verus!
