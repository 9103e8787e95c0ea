//! The vault's formats. A random data key encrypts every stored row and
//! media file with AES-256-GCM; the key itself is kept sealed under a key
//! derived from the PIN (scrypt) when a PIN is set. Here: the PIN rules,
//! the lockout after failed attempts, the hex and base64 text forms, the
//! framing of sealed rows and files, and the accounts that share a vault.
use vstd::prelude::*;
use rand::RngCore;
use vstd::string::StringSliceAdditionalSpecFns;
use aes_gcm::aead::{Aead, KeyInit, Payload};
use aes_gcm::{Aes256Gcm, Nonce};
use base64::Engine;
use crate::search::{hmac_sha256, hmac_sha256_of};
use crate::text::{chars_of, string_of, push_all, push_range, str_eq, find_char, find_char_of, lemma_find_char};
use vstd::utf8::{encode_utf8, decode_utf8, valid_utf8};

verus! {

broadcast use vstd::string::group_string_axioms;

/// How many accounts one vault serves.
pub const MAX_ACCOUNTS: usize = 5;

/// Why a PIN change was refused.
#[derive(PartialEq, Eq, Structural, Clone, Copy, Debug)]
pub enum PinError {
    WrongPin,
    BadFormat,
}

/// One linked WhatsApp account. `jid` is whoever paired it last (kept after
/// a logout so a new pairing can tell whether the chats on disk are its
/// own) and `name` is what the account switcher shows.
#[derive(Clone, Debug)]
pub struct Account {
    pub id: String,
    pub jid: String,
    pub name: String,
}

// ---------------------------------------------------------------------------
// Outside calls
// ---------------------------------------------------------------------------

/// The largest plaintext AES-GCM seals, in bytes.
pub const SEAL_MAX: u64 = 0x10_0000_0000;

/// What AES-256-GCM gives for a key, a nonce and a plaintext: the
/// ciphertext followed by the 16-byte tag.
pub uninterp spec fn aes_sealed(key: Seq<u8>, iv: Seq<u8>, plain: Seq<u8>) -> Seq<u8>;

/// What AES-256-GCM decryption gives for a key, a nonce and a ciphertext
/// with its tag at the end: the plaintext, or nothing when the tag does
/// not match.
pub uninterp spec fn aes_opened(key: Seq<u8>, iv: Seq<u8>, data: Seq<u8>) -> Option<Seq<u8>>;

/// The standard padded base64 text of some bytes.
pub uninterp spec fn b64_text(bytes: Seq<u8>) -> Seq<char>;

/// The bytes of a standard padded base64 text, nothing when it is not one.
pub uninterp spec fn b64_bytes(text: Seq<char>) -> Option<Seq<u8>>;

/// The 32-byte scrypt key (log N = 17, r = 8, p = 1) of a PIN and a salt.
pub uninterp spec fn scrypt_key(pin: Seq<u8>, salt: Seq<u8>) -> Seq<u8>;

/// A character of the standard base64 alphabet, or its padding.
pub open spec fn is_b64_char(c: char) -> bool {
    ('A' <= c <= 'Z') || ('a' <= c <= 'z') || ('0' <= c <= '9') || c == '+' || c == '/' || c == '='
}

/// Seals `plain` with aes-gcm's `Aead::encrypt` on an `Aes256Gcm`: the
/// ciphertext, as long as the plaintext, then the 16-byte tag (the crate
/// fails only for a plaintext over 2^36 bytes, which `requires` leaves out).
#[verifier::external_body]
fn aes_seal(key: &[u8], iv: &[u8], plain: &[u8]) -> (r: Vec<u8>)
    requires
        key@.len() == 32,
        iv@.len() == 12,
        plain@.len() <= SEAL_MAX,
    ensures
        r@ == aes_sealed(key@, iv@, plain@),
        r@.len() == plain@.len() + 16,
{
    let cipher = Aes256Gcm::new_from_slice(key).expect("a 32-byte key");
    cipher.encrypt(Nonce::from_slice(iv), Payload::from(plain)).expect("AES-GCM encryption cannot fail")
}

/// Opens `data` (ciphertext then tag) with aes-gcm's `Aead::decrypt` on an
/// `Aes256Gcm`. What the same key and nonce sealed opens to the plaintext
/// it was made from (the AEAD round trip); the contract says nothing of
/// which other inputs open.
#[verifier::external_body]
fn aes_open(key: &[u8], iv: &[u8], data: &[u8]) -> (r: Option<Vec<u8>>)
    requires
        key@.len() == 32,
        iv@.len() == 12,
    ensures
        match r {
            Some(p) => aes_opened(key@, iv@, data@) == Some(p@),
            None => aes_opened(key@, iv@, data@) is None,
        },
        forall|p: Seq<u8>|
            p.len() <= SEAL_MAX && data@ == #[trigger] aes_sealed(key@, iv@, p) ==> r is Some && r->0@ == p,
{
    let cipher = Aes256Gcm::new_from_slice(key).expect("a 32-byte key");
    cipher.decrypt(Nonce::from_slice(iv), Payload::from(data)).ok()
}

/// base64's `STANDARD.encode`: the padded text of the bytes, four
/// characters for every three bytes or part of them, over the standard
/// alphabet.
#[verifier::external_body]
pub(crate) fn b64_encode(bytes: &[u8]) -> (r: String)
    requires
        bytes@.len() <= usize::MAX / 2,
    ensures
        r@ == b64_text(bytes@),
        r@.len() == (bytes@.len() + 2) / 3 * 4,
        forall|i: int| 0 <= i < r@.len() ==> is_b64_char(#[trigger] r@[i]),
{
    base64::engine::general_purpose::STANDARD.encode(bytes)
}

/// base64's `STANDARD.decode`; the text that `encode` made of some bytes
/// decodes to those bytes.
#[verifier::external_body]
fn b64_decode(text: &str) -> (r: Option<Vec<u8>>)
    ensures
        match r {
            Some(b) => b64_bytes(text@) == Some(b@),
            None => b64_bytes(text@) is None,
        },
        forall|b: Seq<u8>| text@ == #[trigger] b64_text(b) ==> r is Some && r->0@ == b,
{
    match base64::engine::general_purpose::STANDARD.decode(text) {
        Ok(b) => Some(b),
        Err(_) => None,
    }
}

/// scrypt's `scrypt` with `Params::new(17, 8, 1, 32)` into a 32-byte key
/// (both accepted by the crate for every PIN and salt).
#[verifier::external_body]
fn scrypt_derive(pin: &[u8], salt: &[u8]) -> (r: Vec<u8>)
    ensures
        r@ == scrypt_key(pin@, salt@),
        r@.len() == 32,
{
    let params = scrypt::Params::new(17, 8, 1, 32).expect("valid scrypt params");
    let mut out = vec![0u8; 32];
    scrypt::scrypt(pin, salt, &params, &mut out).expect("a 32-byte output");
    out
}

// ---------------------------------------------------------------------------
// Hex
// ---------------------------------------------------------------------------

/// The lowercase hex digit of a value below 16.
pub open spec fn hex_digit(n: int) -> char {
    seq!['0', '1', '2', '3', '4', '5', '6', '7', '8', '9', 'a', 'b', 'c', 'd', 'e', 'f'][n]
}

/// Two lowercase hex digits per byte.
pub open spec fn hex_of(d: Seq<u8>) -> Seq<char>
    decreases d.len(),
{
    if d.len() == 0 {
        seq![]
    } else {
        hex_of(d.drop_last()) + seq![hex_digit((d.last() / 16) as int), hex_digit((d.last() % 16) as int)]
    }
}

fn hex_digit_of(n: u8) -> (c: char)
    requires
        n < 16,
    ensures
        c == hex_digit(n as int),
{
    let digits = ['0', '1', '2', '3', '4', '5', '6', '7', '8', '9', 'a', 'b', 'c', 'd', 'e', 'f'];
    assert(digits@ =~= seq!['0', '1', '2', '3', '4', '5', '6', '7', '8', '9', 'a', 'b', 'c', 'd', 'e', 'f']);
    digits[n as usize]
}

/// The bytes as lowercase hex, two digits each.
pub fn hex_encode(data: &[u8]) -> (r: String)
    ensures
        r@ == hex_of(data@),
{
    let n = data.len();
    let mut out: Vec<char> = Vec::new();
    let mut i: usize = 0;
    while i < n
        invariant
            n == data@.len(),
            i <= n,
            out@ == hex_of(data@.take(i as int)),
        decreases n - i,
    {
        let b = data[i];
        out.push(hex_digit_of(b / 16));
        out.push(hex_digit_of(b % 16));
        assert(data@.take(i + 1).drop_last() =~= data@.take(i as int));
        i = i + 1;
    }
    assert(data@.take(n as int) =~= data@);
    string_of(&out)
}

/// The value of a hex digit byte, either case.
pub open spec fn hex_value(c: u8) -> Option<int> {
    if 48 <= c <= 57 {
        Some(c - 48)
    } else if 97 <= c <= 102 {
        Some(c - 87)
    } else if 65 <= c <= 70 {
        Some(c - 55)
    } else {
        None
    }
}

/// The byte a two-byte pair reads as in base 16: two hex digits, or a plus
/// sign and one digit (as integer parsing allows).
pub open spec fn pair_value(b0: u8, b1: u8) -> Option<u8> {
    if b0 == 43 {
        match hex_value(b1) {
            Some(l) => Some(l as u8),
            None => None,
        }
    } else {
        match (hex_value(b0), hex_value(b1)) {
            (Some(h), Some(l)) => Some((h * 16 + l) as u8),
            _ => None,
        }
    }
}

/// `x` in front of the bytes, when there are bytes.
pub open spec fn prepend(x: Seq<u8>, o: Option<Seq<u8>>) -> Option<Seq<u8>> {
    match o {
        Some(r) => Some(x + r),
        None => None,
    }
}

/// The bytes of the pairs from byte `i` on, nothing when a pair is not hex.
pub open spec fn pairs_from(b: Seq<u8>, i: int) -> Option<Seq<u8>>
    decreases b.len() - i,
{
    if i < 0 || i + 1 >= b.len() {
        Some(seq![])
    } else {
        match pair_value(b[i], b[i + 1]) {
            None => None,
            Some(v) => prepend(seq![v], pairs_from(b, i + 2)),
        }
    }
}

/// The bytes a hex text stands for, nothing when it has an odd length or a
/// pair that is not hex.
pub open spec fn hex_decoded(b: Seq<u8>) -> Option<Seq<u8>> {
    if b.len() % 2 != 0 {
        None
    } else {
        pairs_from(b, 0)
    }
}

/// A byte offset that falls between characters.
pub open spec fn splits_at(b: Seq<u8>, i: int) -> bool {
    i <= 0 || i >= b.len() || !vstd::utf8::is_continuation_byte(b[i])
}

/// Reading the pairs from `i` on never cuts a character before the first
/// pair that is not hex (the text is read pair by pair as substrings).
pub open spec fn pairs_safe(b: Seq<u8>, i: int) -> bool
    decreases b.len() - i,
{
    if i < 0 || i + 1 >= b.len() {
        true
    } else {
        splits_at(b, i) && splits_at(b, i + 2) && (pair_value(b[i], b[i + 1]) is None || pairs_safe(b, i + 2))
    }
}

/// The hex text is read without cutting a character.
pub open spec fn hex_safe(b: Seq<u8>) -> bool {
    b.len() % 2 != 0 || pairs_safe(b, 0)
}

fn hex_value_of(c: u8) -> (r: Option<u8>)
    ensures
        match r {
            Some(v) => hex_value(c) == Some(v as int) && v < 16,
            None => hex_value(c) is None,
        },
{
    if 48 <= c && c <= 57 {
        Some(c - 48)
    } else if 97 <= c && c <= 102 {
        Some(c - 87)
    } else if 65 <= c && c <= 70 {
        Some(c - 55)
    } else {
        None
    }
}

/// The bytes a hex text stands for (either case; a pair may also be a plus
/// sign and one digit); `Err` for an odd length or a pair that is not hex.
pub fn hex_decode(s: &str) -> (r: Result<Vec<u8>, ()>)
    requires
        hex_safe(s.spec_bytes()),
    ensures
        match r {
            Ok(v) => hex_decoded(s.spec_bytes()) == Some(v@),
            Err(_) => hex_decoded(s.spec_bytes()) is None,
        },
{
    let b = s.as_bytes();
    let n = b.len();
    if n % 2 != 0 {
        return Err(());
    }
    let mut out: Vec<u8> = Vec::new();
    let mut i: usize = 0;
    while i < n
        invariant
            n == b@.len(),
            b@ == s.spec_bytes(),
            n % 2 == 0,
            i % 2 == 0,
            i <= n,
            pairs_from(b@, 0) == prepend(out@, pairs_from(b@, i as int)),
        decreases n - i,
    {
        let v = if b[i] == 43 {
            hex_value_of(b[i + 1])
        } else {
            match (hex_value_of(b[i]), hex_value_of(b[i + 1])) {
                (Some(h), Some(l)) => Some(h * 16 + l),
                _ => None,
            }
        };
        match v {
            None => {
                assert(pair_value(b@[i as int], b@[i + 1]) is None);
                assert(pairs_from(b@, i as int) is None);
                return Err(());
            },
            Some(x) => {
                assert(pair_value(b@[i as int], b@[i + 1]) == Some(x));
                let ghost ob = out@;
                out.push(x);
                proof {
                    match pairs_from(b@, i + 2) {
                        Some(rest) => {
                            assert(ob + (seq![x] + rest) =~= out@ + rest);
                        },
                        None => {},
                    }
                }
            },
        }
        i = i + 2;
    }
    assert(pairs_from(b@, i as int) == Some(Seq::<u8>::empty()));
    assert(out@ + Seq::<u8>::empty() =~= out@);
    Ok(out)
}

// ---------------------------------------------------------------------------
// PIN, lockout, accounts
// ---------------------------------------------------------------------------

/// A PIN is 4 to 10 ASCII digits.
pub open spec fn pin_format_ok(b: Seq<u8>) -> bool {
    4 <= b.len() <= 10 && forall|i: int| 0 <= i < b.len() ==> 48 <= #[trigger] b[i] <= 57
}

/// `Err(BadFormat)` for a PIN that is not 4 to 10 ASCII digits.
pub fn check_pin_format(pin: &str) -> (r: Result<(), PinError>)
    ensures
        r is Ok <==> pin_format_ok(pin.spec_bytes()),
        r is Err ==> r == Err::<(), PinError>(PinError::BadFormat),
{
    let b = pin.as_bytes();
    let n = b.len();
    if n < 4 || n > 10 {
        return Err(PinError::BadFormat);
    }
    let mut i: usize = 0;
    while i < n
        invariant
            n == b@.len(),
            b@ == pin.spec_bytes(),
            i <= n,
            forall|k: int| 0 <= k < i ==> 48 <= #[trigger] b@[k] <= 57,
        decreases n - i,
    {
        if b[i] < 48 || b[i] > 57 {
            assert(!(48 <= b@[i as int] <= 57));
            return Err(PinError::BadFormat);
        }
        i = i + 1;
    }
    Ok(())
}

/// Two to the `k`.
pub open spec fn doubling(k: nat) -> nat
    decreases k,
{
    if k == 0 {
        1
    } else {
        2 * doubling((k - 1) as nat)
    }
}

/// How long, in milliseconds, unlocking waits after this many failed
/// attempts in a row: nothing before the third, then 500 ms doubling each
/// time, at most 8 s.
pub open spec fn lockout_of(failed: nat) -> Option<nat> {
    if failed < 3 {
        None
    } else {
        let d = 500 * doubling((failed - 3) as nat);
        Some(if d <= 8000 { d } else { 8000 })
    }
}

proof fn lemma_doubling_grows(k: nat)
    ensures
        doubling(k) >= 1,
        k >= 5 ==> doubling(k) >= 32,
    decreases k,
{
    if k > 0 {
        lemma_doubling_grows((k - 1) as nat);
        if k == 5 {
            assert(doubling(5) == 32) by {
                reveal_with_fuel(doubling, 6);
            }
        }
    }
}

proof fn lemma_doubling_monotone(a: nat, b: nat)
    requires
        a <= b,
    ensures
        doubling(a) <= doubling(b),
    decreases b,
{
    if a < b {
        lemma_doubling_monotone(a, (b - 1) as nat);
        lemma_doubling_grows((b - 1) as nat);
    }
}

/// After three failed attempts retries back off: half a second at first,
/// never less after more failures, and never more than eight seconds.
pub proof fn law_lockout_backs_off(a: nat, b: nat)
    requires
        3 <= a <= b,
    ensures
        lockout_of(3) == Some(500nat),
        lockout_of(a) matches Some(x) && lockout_of(b) matches Some(y) && 500 <= x <= y <= 8000,
{
    reveal_with_fuel(doubling, 1);
    lemma_doubling_monotone((a - 3) as nat, (b - 3) as nat);
    lemma_doubling_grows((a - 3) as nat);
}

proof fn lemma_doubling_is_pow2(k: nat)
    ensures
        doubling(k) == vstd::arithmetic::power2::pow2(k),
    decreases k,
{
    vstd::arithmetic::power2::lemma2_to64();
    if k > 0 {
        lemma_doubling_is_pow2((k - 1) as nat);
        vstd::arithmetic::power2::lemma_pow2_unfold(k);
    }
}

/// The wait after the third failure in a row is half a second and doubles
/// with each further failure until it reaches eight seconds: after `n`
/// failures it is the smaller of 500 * 2^(n-3) ms and 8000 ms; before the
/// third there is none.
pub proof fn law_lockout_doubles_up_to_the_cap(n: nat)
    ensures
        n < 3 ==> lockout_of(n) is None,
        n >= 3 ==> lockout_of(n) == Some(
            if 500 * vstd::arithmetic::power2::pow2((n - 3) as nat) <= 8000 {
                500 * vstd::arithmetic::power2::pow2((n - 3) as nat)
            } else {
                8000nat
            },
        ),
        n >= 3 ==> lockout_of(n + 1) == Some(
            if 2 * lockout_of(n)->0 <= 8000 { 2 * lockout_of(n)->0 } else { 8000nat },
        ),
{
    if n >= 3 {
        lemma_doubling_is_pow2((n - 3) as nat);
        lemma_doubling_is_pow2((n - 2) as nat);
        assert(doubling((n + 1 - 3) as nat) == 2 * doubling((n - 3) as nat));
    }
}

/// The wait after `failed` attempts in a row (the count stays below the
/// point where the delay's arithmetic would overflow).
pub fn lockout_ms(failed: u32) -> (r: Option<u64>)
    requires
        failed < 3 || failed - 3 <= 55,
    ensures
        match r {
            Some(ms) => lockout_of(failed as nat) == Some(ms as nat),
            None => lockout_of(failed as nat) is None,
        },
        failed < 3 <==> r is None,
        failed >= 3 ==> r == Some(
            (if 500 * vstd::arithmetic::power2::pow2((failed - 3) as nat) <= 8000 {
                500 * vstd::arithmetic::power2::pow2((failed - 3) as nat)
            } else {
                8000nat
            }) as u64,
        ),
{
    proof {
        law_lockout_doubles_up_to_the_cap(failed as nat);
    }
    if failed < 3 {
        return None;
    }
    let k = failed - 3;
    if k >= 5 {
        proof {
            lemma_doubling_grows(k as nat);
        }
        return Some(8000);
    }
    let mut d: u64 = 500;
    let mut j: u32 = 0;
    while j < k
        invariant
            j <= k,
            k < 5,
            d == 500 * doubling(j as nat),
        decreases k - j,
    {
        proof {
            lemma_doubling_grows(j as nat);
            assert(doubling(j as nat) <= 16) by {
                reveal_with_fuel(doubling, 6);
            }
        }
        d = d * 2;
        j = j + 1;
    }
    Some(if d <= 8000 { d } else { 8000 })
}

/// The prefix of one account's rows: none for the first account, which is
/// what a single-account install already has.
pub open spec fn scope_of(account: Seq<char>) -> Seq<char> {
    if account.len() == 0 {
        seq![]
    } else {
        "acct:"@ + account + ":"@
    }
}

/// The prefix of one account's rows.
pub fn account_scope(account: &str) -> (r: String)
    ensures
        r@ == scope_of(account@),
{
    if account.is_empty() {
        return String::new();
    }
    let mut v = chars_of("acct:");
    let a = chars_of(account);
    push_all(&mut v, &a);
    v.push(':');
    proof {
        reveal_strlit(":");
    }
    assert(v@ =~= scope_of(account@));
    string_of(&v)
}

/// The prefix of the rows a logout wipes: the first account's are the
/// store's own rows.
pub open spec fn wipe_scope_of(id: Seq<char>) -> Seq<char> {
    if id.len() == 0 {
        "store:"@
    } else {
        "acct:"@ + id + ":"@
    }
}

pub fn wipe_scope(id: &str) -> (r: String)
    ensures
        r@ == wipe_scope_of(id@),
{
    if id.is_empty() {
        return "store:".to_string();
    }
    account_scope(id)
}

/// The account to open at launch: the saved one while it exists, else the
/// first account, else the first account's empty id.
pub open spec fn active_of(ids: Seq<Seq<char>>, saved: Seq<char>) -> Seq<char> {
    if ids.contains(saved) {
        saved
    } else if ids.len() > 0 {
        ids[0]
    } else {
        seq![]
    }
}

pub fn active_account(list: &Vec<Account>, saved: &str) -> (r: String)
    ensures
        r@ == active_of(list@.map_values(|a: Account| a.id@), saved@),
{
    let ghost ids = list@.map_values(|a: Account| a.id@);
    let n = list.len();
    let mut i: usize = 0;
    while i < n
        invariant
            n == list@.len(),
            ids == list@.map_values(|a: Account| a.id@),
            i <= n,
            forall|k: int| 0 <= k < i ==> #[trigger] ids[k] != saved@,
        decreases n - i,
    {
        assert(ids[i as int] == list@[i as int].id@);
        if str_eq(list[i].id.as_str(), saved) {
            assert(ids.contains(saved@));
            return saved.to_string();
        }
        i = i + 1;
    }
    assert(!ids.contains(saved@)) by {
        if ids.contains(saved@) {
            let k = choose|k: int| 0 <= k < ids.len() && ids[k] == saved@;
            assert(ids[k] != saved@);
        }
    }
    if n > 0 {
        assert(ids[0] == list@[0].id@);
        list[0].id.clone()
    } else {
        String::new()
    }
}

/// The account registry, or for an install from before it existed the one
/// account it has: no id, the jid it was paired with, no name.
pub fn accounts_or_single(list: Vec<Account>, self_jid: Option<String>) -> (r: Vec<Account>)
    ensures
        list@.len() > 0 ==> r@ == list@,
        list@.len() == 0 ==> r@.len() == 1 && r@[0].id@.len() == 0 && r@[0].name@.len() == 0
            && r@[0].jid@ == match self_jid { Some(j) => j@, None => Seq::<char>::empty() },
{
    if list.len() > 0 {
        return list;
    }
    let mut out: Vec<Account> = Vec::new();
    out.push(Account {
        id: String::new(),
        jid: match self_jid {
            Some(j) => j,
            None => String::new(),
        },
        name: String::new(),
    });
    out
}

// ---------------------------------------------------------------------------
// Sealed files and rows
// ---------------------------------------------------------------------------

/// std's `String::from_utf8`: the text when the bytes are valid UTF-8.
#[verifier::external_body]
fn utf8_text(bytes: Vec<u8>) -> (r: Option<String>)
    ensures
        r is Some <==> valid_utf8(bytes@),
        r is Some ==> r->0@ == decode_utf8(bytes@),
{
    String::from_utf8(bytes).ok()
}

/// The first bytes of a sealed media file: "ZENC1".
pub open spec fn file_magic() -> Seq<u8> {
    seq![90u8, 69u8, 78u8, 67u8, 49u8]
}

/// Whether the first five bytes of a file are the sealed-file magic; the
/// media cache of the old layout kept plain files, which is how a leftover
/// of it is told apart.
pub fn is_sealed_head(head: &[u8; 5]) -> (r: bool)
    ensures
        r == (head@ == file_magic()),
{
    let r = head[0] == 90u8 && head[1] == 69u8 && head[2] == 78u8 && head[3] == 67u8 && head[4] == 49u8;
    assert(r ==> head@ =~= file_magic());
    assert(head@ == file_magic() ==> head@[0] == 90u8 && head@[1] == 69u8 && head@[2] == 78u8 && head@[3] == 67u8 && head@[4] == 49u8);
    r
}

/// A sealed file: "ZENC1", the 12-byte nonce, the 16-byte tag, then the
/// ciphertext (the tag goes first, as the file format has it).
pub open spec fn sealed_file(key: Seq<u8>, iv: Seq<u8>, plain: Seq<u8>) -> Seq<u8> {
    let s = aes_sealed(key, iv, plain);
    file_magic() + iv + s.skip(s.len() - 16) + s.take(s.len() - 16)
}

/// A sealed file starts with "ZENC1" and is 33 bytes longer than what it
/// seals (nonce and tag), given what AES-GCM's output length is; data too
/// short to be a sealed file, or without the magic, reads back as itself,
/// with or without the key.
pub proof fn law_sealed_file_layout(key: Seq<u8>, iv: Seq<u8>, plain: Seq<u8>, k: Option<Seq<u8>>, data: Seq<u8>)
    requires
        iv.len() == 12,
        aes_sealed(key, iv, plain).len() == plain.len() + 16,
    ensures
        sealed_file(key, iv, plain).take(5) == file_magic(),
        sealed_file(key, iv, plain).len() == plain.len() + 33,
        data.len() < 33 || data.take(5) != file_magic() ==> file_plain(k, data) == Ok::<Seq<u8>, Seq<char>>(data),
{
    let s = aes_sealed(key, iv, plain);
    assert(sealed_file(key, iv, plain).take(5) =~= file_magic());
}

/// What a file read gives: data that is too short or lacks the magic is
/// an old plaintext file and comes back as it is; a sealed file needs the
/// key and a matching tag.
pub open spec fn file_plain(key: Option<Seq<u8>>, data: Seq<u8>) -> Result<Seq<u8>, Seq<char>> {
    if data.len() < 33 || data.take(5) != file_magic() {
        Ok(data)
    } else {
        match key {
            None => Err("file is encrypted and vault is locked"@),
            Some(k) => match aes_opened(k, data.subrange(5, 17), data.skip(33) + data.subrange(17, 33)) {
                Some(p) => Ok(p),
                None => Err("media decryption failed"@),
            },
        }
    }
}

fn push_bytes(out: &mut Vec<u8>, src: &[u8], from: usize, to: usize)
    requires
        from <= to <= src@.len(),
    ensures
        final(out)@ == old(out)@ + src@.subrange(from as int, to as int),
{
    let mut i = from;
    while i < to
        invariant
            from <= i <= to,
            to <= src@.len(),
            out@ == old(out)@ + src@.subrange(from as int, i as int),
        decreases to - i,
    {
        out.push(src[i]);
        assert(src@.subrange(from as int, i + 1) =~= src@.subrange(from as int, i as int).push(src@[i as int]));
        i = i + 1;
    }
}

/// Seals a media file's bytes with the data key and a fresh nonce; while
/// the vault is locked (no key) the bytes pass through unchanged.
pub fn encrypt_bytes(key: Option<&[u8]>, iv: &[u8], plain: &[u8]) -> (r: Vec<u8>)
    requires
        key matches Some(k) ==> k@.len() == 32,
        iv@.len() == 12,
        plain@.len() <= SEAL_MAX,
    ensures
        r@ == match key {
            Some(k) => sealed_file(k@, iv@, plain@),
            None => plain@,
        },
        key matches Some(k) ==> aes_sealed(k@, iv@, plain@).len() == plain@.len() + 16,
        key is Some ==> r@.len() == plain@.len() + 33 && r@.take(5) == file_magic(),
{
    let mut out: Vec<u8> = Vec::new();
    match key {
        None => {
            push_bytes(&mut out, plain, 0, plain.len());
            assert(plain@.subrange(0, plain@.len() as int) =~= plain@);
            out
        },
        Some(k) => {
            let sealed = aes_seal(k, iv, plain);
            let n = sealed.len();
            out.push(90u8);
            out.push(69u8);
            out.push(78u8);
            out.push(67u8);
            out.push(49u8);
            push_bytes(&mut out, iv, 0, 12);
            push_bytes(&mut out, sealed.as_slice(), n - 16, n);
            push_bytes(&mut out, sealed.as_slice(), 0, n - 16);
            proof {
                let sv = sealed@;
                assert(iv@.subrange(0, 12) =~= iv@);
                assert(sv.subrange(n - 16, n as int) =~= sv.skip(n - 16));
                assert(sv.subrange(0, n - 16) =~= sv.take(n - 16));
                assert(out@ =~= sealed_file(k@, iv@, plain@));
                law_sealed_file_layout(k@, iv@, plain@, None, Seq::<u8>::empty());
            }
            out
        },
    }
}

/// Reads a media file's bytes: an old plaintext file as it is, a sealed
/// one opened with the data key. What `encrypt_bytes` sealed with a key
/// opens with it to the bytes it was given.
pub fn decrypt_bytes(key: Option<&[u8]>, data: &[u8]) -> (r: Result<Vec<u8>, String>)
    requires
        key matches Some(k) ==> k@.len() == 32,
    ensures
        match (r, file_plain(match key { Some(k) => Some(k@), None => None }, data@)) {
            (Ok(v), Ok(w)) => v@ == w,
            (Err(e), Err(w)) => e@ == w,
            _ => false,
        },
        forall|iv: Seq<u8>, p: Seq<u8>|
            key is Some && iv.len() == 12 && p.len() <= SEAL_MAX && aes_sealed(key->0@, iv, p).len() == p.len() + 16
                && data@ == #[trigger] sealed_file(key->0@, iv, p) ==> r is Ok && r->Ok_0@ == p,
{
    let n = data.len();
    if n < 33 || !(data[0] == 90u8 && data[1] == 69u8 && data[2] == 78u8 && data[3] == 67u8 && data[4] == 49u8) {
        proof {
            if n >= 33 {
                if data@.take(5) == file_magic() {
                    assert(data@.take(5)[0] == 90u8);
                    assert(data@.take(5)[4] == 49u8);
                }
            }
        }
        let mut out: Vec<u8> = Vec::new();
        push_bytes(&mut out, data, 0, n);
        assert(data@.subrange(0, n as int) =~= data@);
        proof {
            assert forall|iv: Seq<u8>, p: Seq<u8>|
                key is Some && iv.len() == 12 && p.len() <= SEAL_MAX && aes_sealed(key->0@, iv, p).len() == p.len() + 16
                    && data@ == #[trigger] sealed_file(key->0@, iv, p) implies out@ == p by {
                let s = aes_sealed(key->0@, iv, p);
                let m = s.len() - 16;
                assert((file_magic() + iv + s.skip(m) + s.take(m)).take(5) =~= file_magic());
            }
        }
        return Ok(out);
    }
    assert(data@.take(5) =~= file_magic());
    match key {
        None => Err("file is encrypted and vault is locked".to_string()),
        Some(k) => {
            let mut iv: Vec<u8> = Vec::new();
            push_bytes(&mut iv, data, 5, 17);
            let mut ct: Vec<u8> = Vec::new();
            push_bytes(&mut ct, data, 33, n);
            push_bytes(&mut ct, data, 17, 33);
            assert(ct@ =~= data@.skip(33) + data@.subrange(17, 33));
            proof {
                assert forall|ivs: Seq<u8>, p: Seq<u8>|
                    ivs.len() == 12 && p.len() <= SEAL_MAX && aes_sealed(k@, ivs, p).len() == p.len() + 16
                        && data@ == #[trigger] sealed_file(k@, ivs, p) implies iv@ == ivs && ct@ == aes_sealed(k@, ivs, p) by {
                    let s = aes_sealed(k@, ivs, p);
                    let m = s.len() - 16;
                    assert(data@.subrange(5, 17) =~= ivs);
                    assert(data@.subrange(17, 33) =~= s.skip(m));
                    assert(data@.skip(33) =~= s.take(m));
                    assert(s.take(m) + s.skip(m) =~= s);
                }
            }
            match aes_open(k, iv.as_slice(), ct.as_slice()) {
                Some(p) => Ok(p),
                None => Err("media decryption failed".to_string()),
            }
        },
    }
}

/// The text split at every colon.
pub open spec fn pieces(s: Seq<char>) -> Seq<Seq<char>>
    decreases s.len(),
{
    let k = find_char(s, ':', 0);
    if k >= s.len() {
        seq![s]
    } else {
        proof {
            lemma_find_char(s, ':', 0);
        }
        seq![s.take(k)] + pieces(s.skip(k + 1))
    }
}

/// Why a stored row did not open.
#[derive(PartialEq, Eq, Structural, Clone, Copy, Debug)]
pub enum RowError {
    /// Not "e:<nonce>:<tag>:<ciphertext>".
    Malformed,
    /// A part is not base64.
    Encoding,
    /// The tag does not match: another key, or a damaged row.
    Decryption,
    /// The plaintext is not UTF-8.
    NotText,
}

/// A sealed row: "e:", then the nonce, the tag and the ciphertext in
/// base64, colon-separated.
pub open spec fn sealed_row(key: Seq<u8>, iv: Seq<u8>, plain: Seq<u8>) -> Seq<char> {
    let s = aes_sealed(key, iv, plain);
    "e:"@ + b64_text(iv) + ":"@ + b64_text(s.skip(s.len() - 16)) + ":"@ + b64_text(s.take(s.len() - 16))
}

/// What opening a stored row gives.
pub open spec fn row_plain(key: Seq<u8>, stored: Seq<char>) -> Result<Seq<char>, RowError> {
    let ps = pieces(stored);
    if ps.len() < 4 || ps[0] != "e"@ {
        Err(RowError::Malformed)
    } else {
        match (b64_bytes(ps[1]), b64_bytes(ps[2]), b64_bytes(ps[3])) {
            (Some(iv), Some(tag), Some(ct)) => match aes_opened(key, iv, ct + tag) {
                Some(p) => if valid_utf8(p) {
                    Ok(decode_utf8(p))
                } else {
                    Err(RowError::NotText)
                },
                None => Err(RowError::Decryption),
            },
            _ => Err(RowError::Encoding),
        }
    }
}

/// A row's nonce, when it has one, is 12 bytes (a row whose nonce decodes
/// to another length cannot be opened at all).
pub open spec fn row_nonce_ok(stored: Seq<char>) -> bool {
    let ps = pieces(stored);
    ps.len() >= 4 && ps[0] == "e"@ && b64_bytes(ps[1]) is Some ==> b64_bytes(ps[1])->0.len() == 12
}

/// Seals a text row with the key and a fresh nonce.
pub fn encrypt_str(plain: &str, key: &[u8], iv: &[u8]) -> (r: String)
    requires
        key@.len() == 32,
        iv@.len() == 12,
        plain.spec_bytes().len() <= SEAL_MAX,
        plain.spec_bytes().len() <= usize::MAX / 2,
    ensures
        r@ == sealed_row(key@, iv@, plain.spec_bytes()),
        row_parts_ok(key@, iv@, plain.spec_bytes()),
{
    let bytes = plain.as_bytes();
    let sealed = aes_seal(key, iv, bytes);
    let n = sealed.len();
    let mut tag: Vec<u8> = Vec::new();
    push_bytes(&mut tag, sealed.as_slice(), n - 16, n);
    let mut ct: Vec<u8> = Vec::new();
    push_bytes(&mut ct, sealed.as_slice(), 0, n - 16);
    assert(tag@ =~= sealed@.skip(n - 16));
    assert(ct@ =~= sealed@.take(n - 16));
    let a = b64_encode(iv);
    let b = b64_encode(tag.as_slice());
    let c = b64_encode(ct.as_slice());
    let mut out = chars_of("e:");
    push_all(&mut out, &chars_of(a.as_str()));
    out.push(':');
    push_all(&mut out, &chars_of(b.as_str()));
    out.push(':');
    push_all(&mut out, &chars_of(c.as_str()));
    proof {
        reveal_strlit(":");
    }
    assert(out@ =~= sealed_row(key@, iv@, bytes@));
    string_of(&out)
}

/// The piece of `v` from `from` up to the next colon, and where it ends.
fn next_piece(v: &Vec<char>, from: usize) -> (r: (Vec<char>, usize))
    requires
        from <= v@.len(),
    ensures
        r.1 as int == find_char(v@, ':', from as int),
        r.0@ == v@.subrange(from as int, r.1 as int),
        from <= r.1 <= v@.len(),
{
    let k = find_char_of(v, ':', from);
    proof {
        lemma_find_char(v@, ':', from as int);
    }
    let mut p: Vec<char> = Vec::new();
    push_range(&mut p, v, from, k);
    (p, k)
}

proof fn lemma_find_char_shift(s: Seq<char>, c: char, from: int)
    requires
        0 <= from <= s.len(),
    ensures
        find_char(s, c, from) == from + find_char(s.skip(from), c, 0),
    decreases s.len() - from,
{
    lemma_find_char(s, c, from);
    lemma_find_char(s.skip(from), c, 0);
    if from < s.len() && s[from] != c {
        lemma_find_char_shift(s, c, from + 1);
        lemma_find_char_shift(s.skip(from), c, 1);
        assert(s.skip(from).skip(1) =~= s.skip(from + 1));
        assert(find_char(s.skip(from), c, 0) == find_char(s.skip(from), c, 1));
    }
}

fn decode_piece(p: &Vec<char>) -> (r: Option<Vec<u8>>)
    ensures
        match r {
            Some(b) => b64_bytes(p@) == Some(b@),
            None => b64_bytes(p@) is None,
        },
        forall|b: Seq<u8>| p@ == #[trigger] b64_text(b) ==> r is Some && r->0@ == b,
{
    let s = string_of(p);
    b64_decode(s.as_str())
}

/// The three parts of a row after its "e" marker, when it has them.
fn row_parts(stored: &str) -> (r: Option<(Vec<char>, Vec<char>, Vec<char>)>)
    ensures
        ({
            let ps = pieces(stored@);
            match r {
                Some((a, b, c)) => ps.len() >= 4 && ps[0] == "e"@ && a@ == ps[1] && b@ == ps[2] && c@ == ps[3],
                None => !(ps.len() >= 4 && ps[0] == "e"@),
            }
        }),
{
    let v = chars_of(stored);
    let n = v.len();
    let (p0, k0) = next_piece(&v, 0);
    let ghost ps = pieces(v@);
    proof {
        lemma_find_char(v@, ':', 0);
        assert(v@.subrange(0, k0 as int) =~= v@.take(k0 as int));
    }
    if k0 >= n {
        assert(ps =~= seq![v@]);
        return None;
    }
    let marker = chars_of("e");
    let is_e = crate::text::seq_eq(&p0, &marker);
    let ghost r1 = v@.skip(k0 + 1);
    assert(ps == seq![v@.take(k0 as int)] + pieces(r1));
    let (p1, k1) = next_piece(&v, k0 + 1);
    proof {
        lemma_find_char_shift(v@, ':', k0 + 1);
        lemma_find_char(r1, ':', 0);
        assert(p1@ =~= r1.take(k1 - (k0 + 1)));
    }
    if k1 >= n {
        assert(find_char(r1, ':', 0) >= r1.len());
        assert(pieces(r1) =~= seq![r1]);
        assert(ps.len() == 2);
        return None;
    }
    let ghost r2 = v@.skip(k1 + 1);
    assert(r1.skip(k1 - k0) =~= r2);
    assert(pieces(r1) == seq![r1.take(k1 - (k0 + 1))] + pieces(r2));
    let (p2, k2) = next_piece(&v, k1 + 1);
    proof {
        lemma_find_char_shift(v@, ':', k1 + 1);
        lemma_find_char(r2, ':', 0);
        assert(p2@ =~= r2.take(k2 - (k1 + 1)));
    }
    if k2 >= n {
        assert(pieces(r2) =~= seq![r2]);
        assert(ps.len() == 3);
        return None;
    }
    let ghost r3 = v@.skip(k2 + 1);
    assert(r2.skip(k2 - k1) =~= r3);
    assert(pieces(r2) == seq![r2.take(k2 - (k1 + 1))] + pieces(r3));
    let (p3, k3) = next_piece(&v, k2 + 1);
    proof {
        lemma_find_char_shift(v@, ':', k2 + 1);
        lemma_find_char(r3, ':', 0);
        assert(p3@ =~= r3.take(k3 - (k2 + 1)));
        if k3 >= n {
            assert(r3.take(k3 - (k2 + 1)) =~= r3);
        }
        assert(pieces(r3)[0] == p3@);
        assert(ps[0] == p0@);
        assert(ps[1] == p1@);
        assert(ps[2] == p2@);
        assert(ps[3] == p3@);
        reveal_strlit("e");
    }
    if !is_e {
        return None;
    }
    Some((p1, p2, p3))
}

/// No colon in the text.
pub open spec fn colon_free(s: Seq<char>) -> bool {
    forall|i: int| 0 <= i < s.len() ==> s[i] != ':'
}

proof fn lemma_find_char_is(s: Seq<char>, c: char, from: int, j: int)
    requires
        0 <= from <= j <= s.len(),
        j < s.len() ==> s[j] == c,
        forall|k: int| from <= k < j ==> s[k] != c,
    ensures
        find_char(s, c, from) == j,
    decreases j - from,
{
    if from < j {
        lemma_find_char_is(s, c, from + 1, j);
    }
}

proof fn lemma_pieces_colon_free(a: Seq<char>)
    requires
        colon_free(a),
    ensures
        pieces(a) == seq![a],
{
    lemma_find_char_is(a, ':', 0, a.len() as int);
}

proof fn lemma_pieces_front(a: Seq<char>, rest: Seq<char>)
    requires
        colon_free(a),
    ensures
        pieces(a + seq![':'] + rest) == seq![a] + pieces(rest),
{
    let s = a + seq![':'] + rest;
    lemma_find_char_is(s, ':', 0, a.len() as int);
    assert(s.take(a.len() as int) =~= a);
    assert(s.skip(a.len() as int + 1) =~= rest);
}

/// The parts a sealed row is built from: AES-GCM gave the tag after the
/// ciphertext, and their base64 texts hold no colon.
pub open spec fn row_parts_ok(key: Seq<u8>, iv: Seq<u8>, plain: Seq<u8>) -> bool {
    let s = aes_sealed(key, iv, plain);
    &&& s.len() == plain.len() + 16
    &&& colon_free(b64_text(iv))
    &&& colon_free(b64_text(s.skip(s.len() - 16)))
    &&& colon_free(b64_text(s.take(s.len() - 16)))
}

proof fn lemma_row_pieces(key: Seq<u8>, iv: Seq<u8>, plain: Seq<u8>)
    requires
        row_parts_ok(key, iv, plain),
    ensures
        ({
            let s = aes_sealed(key, iv, plain);
            pieces(sealed_row(key, iv, plain)) == seq!["e"@, b64_text(iv), b64_text(s.skip(s.len() - 16)), b64_text(s.take(s.len() - 16))]
        }),
{
    let s = aes_sealed(key, iv, plain);
    let a = b64_text(iv);
    let b = b64_text(s.skip(s.len() - 16));
    let c = b64_text(s.take(s.len() - 16));
    reveal_strlit("e:");
    reveal_strlit(":");
    reveal_strlit("e");
    assert(sealed_row(key, iv, plain) =~= "e"@ + seq![':'] + (a + seq![':'] + (b + seq![':'] + c)));
    assert(colon_free("e"@));
    lemma_pieces_front("e"@, a + seq![':'] + (b + seq![':'] + c));
    lemma_pieces_front(a, b + seq![':'] + c);
    lemma_pieces_front(b, c);
    lemma_pieces_colon_free(c);
    assert(pieces(sealed_row(key, iv, plain)) =~= seq!["e"@, a, b, c]);
}

/// Opens a stored text row with the key. A row that `encrypt_str` sealed
/// with the key opens to the text it was given.
fn decrypt_str(stored: &str, key: &[u8]) -> (r: Result<String, RowError>)
    requires
        key@.len() == 32,
        row_nonce_ok(stored@),
    ensures
        match (r, row_plain(key@, stored@)) {
            (Ok(v), Ok(w)) => v@ == w,
            (Err(e), Err(w)) => e == w,
            _ => false,
        },
        forall|iv: Seq<u8>, p: Seq<char>|
            iv.len() == 12 && encode_utf8(p).len() <= SEAL_MAX && row_parts_ok(key@, iv, encode_utf8(p))
                && stored@ == #[trigger] sealed_row(key@, iv, encode_utf8(p)) ==> r is Ok && r->Ok_0@ == p,
{
    broadcast use vstd::utf8::encode_utf8_valid_utf8, vstd::utf8::encode_utf8_decode_utf8;
    proof {
        assert forall|iv: Seq<u8>, p: Seq<char>|
            iv.len() == 12 && encode_utf8(p).len() <= SEAL_MAX && row_parts_ok(key@, iv, encode_utf8(p))
                && stored@ == #[trigger] sealed_row(key@, iv, encode_utf8(p)) implies pieces(stored@).len() >= 4
            && pieces(stored@)[0] == "e"@ by {
            lemma_row_pieces(key@, iv, encode_utf8(p));
        }
    }
    let (p1, p2, p3) = match row_parts(stored) {
        Some(parts) => parts,
        None => {
            return Err(RowError::Malformed);
        },
    };
    let iv = match decode_piece(&p1) {
        Some(b) => b,
        None => {
            proof {
                assert forall|ivs: Seq<u8>, p: Seq<char>|
                    ivs.len() == 12 && encode_utf8(p).len() <= SEAL_MAX && row_parts_ok(key@, ivs, encode_utf8(p))
                        && stored@ == #[trigger] sealed_row(key@, ivs, encode_utf8(p)) implies false by {
                    let s = aes_sealed(key@, ivs, encode_utf8(p));
                    lemma_row_pieces(key@, ivs, encode_utf8(p));
                    assert(p1@ == b64_text(ivs));
                }
            }
            return Err(RowError::Encoding);
        },
    };
    let tag = match decode_piece(&p2) {
        Some(b) => b,
        None => {
            proof {
                assert forall|ivs: Seq<u8>, p: Seq<char>|
                    ivs.len() == 12 && encode_utf8(p).len() <= SEAL_MAX && row_parts_ok(key@, ivs, encode_utf8(p))
                        && stored@ == #[trigger] sealed_row(key@, ivs, encode_utf8(p)) implies false by {
                    let s = aes_sealed(key@, ivs, encode_utf8(p));
                    lemma_row_pieces(key@, ivs, encode_utf8(p));
                    assert(p2@ == b64_text(s.skip(s.len() - 16)));
                }
            }
            return Err(RowError::Encoding);
        },
    };
    let ct = match decode_piece(&p3) {
        Some(b) => b,
        None => {
            proof {
                assert forall|ivs: Seq<u8>, p: Seq<char>|
                    ivs.len() == 12 && encode_utf8(p).len() <= SEAL_MAX && row_parts_ok(key@, ivs, encode_utf8(p))
                        && stored@ == #[trigger] sealed_row(key@, ivs, encode_utf8(p)) implies false by {
                    let s = aes_sealed(key@, ivs, encode_utf8(p));
                    lemma_row_pieces(key@, ivs, encode_utf8(p));
                    assert(p3@ == b64_text(s.take(s.len() - 16)));
                }
            }
            return Err(RowError::Encoding);
        },
    };
    let mut data: Vec<u8> = Vec::new();
    push_bytes(&mut data, ct.as_slice(), 0, ct.len());
    push_bytes(&mut data, tag.as_slice(), 0, tag.len());
    assert(data@ =~= ct@ + tag@);
    proof {
        assert forall|ivs: Seq<u8>, p: Seq<char>|
            ivs.len() == 12 && encode_utf8(p).len() <= SEAL_MAX && row_parts_ok(key@, ivs, encode_utf8(p))
                && stored@ == #[trigger] sealed_row(key@, ivs, encode_utf8(p)) implies iv@ == ivs && data@
            == aes_sealed(key@, ivs, encode_utf8(p)) by {
            let s = aes_sealed(key@, ivs, encode_utf8(p));
            lemma_row_pieces(key@, ivs, encode_utf8(p));
            assert(s.take(s.len() - 16) + s.skip(s.len() - 16) =~= s);
        }
    }
    match aes_open(key, iv.as_slice(), data.as_slice()) {
        None => Err(RowError::Decryption),
        Some(p) => match utf8_text(p) {
            Some(t) => Ok(t),
            None => Err(RowError::NotText),
        },
    }
}

/// Opens a stored text row with the key; `None` for a row whose nonce
/// decodes to other than 12 bytes, which cannot be opened at all.
pub fn decrypt_row(stored: &str, key: &[u8]) -> (r: Option<Result<String, RowError>>)
    requires
        key@.len() == 32,
    ensures
        row_nonce_ok(stored@) <==> r is Some,
        r matches Some(res) ==> match (res, row_plain(key@, stored@)) {
            (Ok(v), Ok(w)) => v@ == w,
            (Err(e), Err(w)) => e == w,
            _ => false,
        },
        forall|iv: Seq<u8>, p: Seq<char>|
            iv.len() == 12 && encode_utf8(p).len() <= SEAL_MAX && row_parts_ok(key@, iv, encode_utf8(p))
                && stored@ == #[trigger] sealed_row(key@, iv, encode_utf8(p)) ==> r is Some && r->0 is Ok
                && r->0->Ok_0@ == p,
{
    if let Some((p1, _, _)) = row_parts(stored) {
        if let Some(iv) = decode_piece(&p1) {
            if iv.len() != 12 {
                proof {
                    assert forall|ivs: Seq<u8>, p: Seq<char>|
                        ivs.len() == 12 && encode_utf8(p).len() <= SEAL_MAX && row_parts_ok(key@, ivs, encode_utf8(p))
                            && stored@ == #[trigger] sealed_row(key@, ivs, encode_utf8(p)) implies false by {
                        lemma_row_pieces(key@, ivs, encode_utf8(p));
                    }
                }
                return None;
            }
        }
    }
    Some(decrypt_str(stored, key))
}

// ---------------------------------------------------------------------------
// Laws
// ---------------------------------------------------------------------------

proof fn lemma_hex_digit(n: int)
    requires
        0 <= n < 16,
    ensures
        hex_value(hex_digit(n) as u8) == Some(n),
        (hex_digit(n) as u8) != 43,
        '\0' <= hex_digit(n) <= '\u{7f}',
        hex_digit(n) as u8 == hex_digit(n) as int,
{
    if n == 0 {} else if n == 1 {} else if n == 2 {} else if n == 3 {} else if n == 4 {}
    else if n == 5 {} else if n == 6 {} else if n == 7 {} else if n == 8 {} else if n == 9 {}
    else if n == 10 {} else if n == 11 {} else if n == 12 {} else if n == 13 {} else if n == 14 {}
    else {}
}

proof fn lemma_hex_of_index(d: Seq<u8>)
    ensures
        hex_of(d).len() == 2 * d.len(),
        forall|i: int| 0 <= i < d.len() ==> #[trigger] hex_of(d)[2 * i] == hex_digit((d[i] / 16) as int)
            && hex_of(d)[2 * i + 1] == hex_digit((d[i] % 16) as int),
    decreases d.len(),
{
    if d.len() > 0 {
        lemma_hex_of_index(d.drop_last());
        let h = hex_of(d);
        let t = hex_of(d.drop_last());
        assert forall|i: int| 0 <= i < d.len() implies #[trigger] h[2 * i] == hex_digit((d[i] / 16) as int)
            && h[2 * i + 1] == hex_digit((d[i] % 16) as int) by {
            if i < d.len() - 1 {
                assert(h[2 * i] == t[2 * i]);
                assert(h[2 * i + 1] == t[2 * i + 1]);
                assert(d.drop_last()[i] == d[i]);
            }
        }
    }
}

proof fn lemma_pairs_of_hex(d: Seq<u8>, b: Seq<u8>, i: int)
    requires
        b.len() == 2 * d.len(),
        forall|k: int| 0 <= k < d.len() ==> pair_value(#[trigger] b[2 * k], b[2 * k + 1]) == Some(d[k]),
        forall|k: int| 0 <= k < b.len() ==> #[trigger] b[k] < 128,
        0 <= i <= d.len(),
    ensures
        pairs_from(b, 2 * i) == Some(d.skip(i)),
        pairs_safe(b, 2 * i),
    decreases d.len() - i,
{
    if i < d.len() {
        lemma_pairs_of_hex(d, b, i + 1);
        assert(pair_value(b[2 * i], b[2 * i + 1]) == Some(d[i]));
        assert(seq![d[i]] + d.skip(i + 1) =~= d.skip(i));
        assert(2 * i + 2 == 2 * (i + 1));
        if 2 * i + 2 < b.len() {
            assert(b[2 * i + 2] < 128);
        }
    } else {
        assert(d.skip(i) =~= Seq::<u8>::empty());
    }
}

/// Hex text reads back as the bytes it was made from.
pub proof fn law_hex_round_trip(d: Seq<u8>)
    ensures
        hex_safe(encode_utf8(hex_of(d))),
        hex_decoded(encode_utf8(hex_of(d))) == Some(d),
{
    lemma_hex_of_index(d);
    let h = hex_of(d);
    assert forall|i: int| #![trigger h[i]] 0 <= i < h.len() implies '\0' <= h[i] && h[i] <= '\u{7f}' by {
        let k = i / 2;
        assert(0 <= k < d.len());
        assert(h[2 * k] == hex_digit((d[k] / 16) as int));
        assert(h[2 * k + 1] == hex_digit((d[k] % 16) as int));
        if i % 2 == 0 {
            assert(i == 2 * k);
            lemma_hex_digit((d[k] / 16) as int);
        } else {
            assert(i == 2 * k + 1);
            lemma_hex_digit((d[k] % 16) as int);
        }
    }
    assert(vstd::utf8::is_ascii_chars(h));
    vstd::utf8::is_ascii_chars_encode_utf8(h);
    let b = encode_utf8(h);
    assert forall|k: int| 0 <= k < d.len() implies pair_value(#[trigger] b[2 * k], b[2 * k + 1]) == Some(d[k]) by {
        lemma_hex_digit((d[k] / 16) as int);
        lemma_hex_digit((d[k] % 16) as int);
        assert(h[2 * k] == hex_digit((d[k] / 16) as int));
        assert(h[2 * k + 1] == hex_digit((d[k] % 16) as int));
        assert(b[2 * k] == h[2 * k] as u8);
        assert(b[2 * k + 1] == h[2 * k + 1] as u8);
        assert(d[k] == (d[k] / 16) * 16 + d[k] % 16);
    }
    assert forall|k: int| 0 <= k < b.len() implies #[trigger] b[k] < 128 by {
        assert(b[k] == h[k] as u8);
    }
    lemma_pairs_of_hex(d, b, 0);
    assert(d.skip(0) =~= d);
}

// ---------------------------------------------------------------------------
// The data key
// ---------------------------------------------------------------------------

/// Why a stored data key could not be read.
#[derive(PartialEq, Eq, Structural, Clone, Copy, Debug)]
pub enum KeyError {
    /// The record lacks its "k:" prefix.
    Corrupted,
    /// The key is not base64.
    NotBase64,
    /// The key is not 32 bytes.
    WrongSize,
}

/// The 32-byte key a base64 text holds.
pub open spec fn key_of_text(text: Seq<char>) -> Result<Seq<u8>, KeyError> {
    match b64_bytes(text) {
        None => Err(KeyError::NotBase64),
        Some(b) => if b.len() == 32 {
            Ok(b)
        } else {
            Err(KeyError::WrongSize)
        },
    }
}

/// Reads a data key from its base64 text.
pub fn decode_key(text: &str) -> (r: Result<Vec<u8>, KeyError>)
    ensures
        match (r, key_of_text(text@)) {
            (Ok(v), Ok(w)) => v@ == w,
            (Err(e), Err(w)) => e == w,
            _ => false,
        },
        forall|k: Seq<u8>| k.len() == 32 && text@ == #[trigger] b64_text(k) ==> r is Ok && r->Ok_0@ == k,
{
    match b64_decode(text) {
        None => Err(KeyError::NotBase64),
        Some(b) => if b.len() == 32 {
            Ok(b)
        } else {
            Err(KeyError::WrongSize)
        },
    }
}

/// How the data key is kept when no PIN is set: "k:" and its base64.
pub open spec fn key_record(dk: Seq<u8>) -> Seq<char> {
    "k:"@ + b64_text(dk)
}

pub fn dk_record(dk: &[u8]) -> (r: String)
    requires
        dk@.len() == 32,
    ensures
        r@ == key_record(dk@),
{
    let mut v = chars_of("k:");
    let t = b64_encode(dk);
    push_all(&mut v, &chars_of(t.as_str()));
    string_of(&v)
}

/// Reads the data key back from its record ("vault key corrupted" without
/// its prefix).
pub fn dk_from_record(inner: &str) -> (r: Result<Vec<u8>, KeyError>)
    ensures
        inner@.len() < 2 || inner@.take(2) != "k:"@ ==> r is Err && r->Err_0 == KeyError::Corrupted,
        inner@.len() >= 2 && inner@.take(2) == "k:"@ ==> match (r, key_of_text(inner@.skip(2))) {
            (Ok(v), Ok(w)) => v@ == w,
            (Err(e), Err(w)) => e == w,
            _ => false,
        },
        forall|k: Seq<u8>| k.len() == 32 && inner@ == #[trigger] key_record(k) ==> r is Ok && r->Ok_0@ == k,
{
    let v = chars_of(inner);
    proof {
        reveal_strlit("k:");
    }
    if v.len() < 2 || v[0] != 'k' || v[1] != ':' {
        proof {
            if v@.len() >= 2 && v@.take(2) == "k:"@ {
                assert(v@.take(2)[0] == 'k');
                assert(v@.take(2)[1] == ':');
            }
            assert forall|k: Seq<u8>| k.len() == 32 && inner@ == #[trigger] key_record(k) implies false by {
                assert(key_record(k)[0] == 'k');
                assert(key_record(k)[1] == ':');
            }
        }
        return Err(KeyError::Corrupted);
    }
    assert(v@.take(2) =~= "k:"@);
    let mut rest: Vec<char> = Vec::new();
    push_range(&mut rest, &v, 2, v.len());
    assert(rest@ =~= inner@.skip(2));
    proof {
        assert forall|k: Seq<u8>| k.len() == 32 && inner@ == #[trigger] key_record(k) implies rest@ == b64_text(k) by {
            assert(key_record(k).skip(2) =~= b64_text(k));
        }
    }
    let t = string_of(&rest);
    decode_key(t.as_str())
}

/// The text a PIN seals the data key in: the key's base64, sealed as a row
/// under the scrypt key of the PIN and the salt.
pub open spec fn pin_sealed_key(pin: Seq<u8>, salt: Seq<u8>, dk: Seq<u8>, iv: Seq<u8>) -> Seq<char> {
    sealed_row(scrypt_key(pin, salt), iv, encode_utf8(b64_text(dk)))
}

/// The parts of a PIN-sealed key are what sealing makes.
pub open spec fn pin_seal_ok(pin: Seq<u8>, salt: Seq<u8>, dk: Seq<u8>, iv: Seq<u8>) -> bool {
    row_parts_ok(scrypt_key(pin, salt), iv, encode_utf8(b64_text(dk)))
}

/// Seals the data key under a PIN with a fresh salt and nonce.
pub fn seal_dk(pin: &str, salt: &[u8], dk: &[u8], iv: &[u8]) -> (r: String)
    requires
        dk@.len() == 32,
        iv@.len() == 12,
    ensures
        r@ == pin_sealed_key(pin.spec_bytes(), salt@, dk@, iv@),
        pin_seal_ok(pin.spec_bytes(), salt@, dk@, iv@),
{
    let kek = scrypt_derive(pin.as_bytes(), salt);
    let text = b64_encode(dk);
    proof {
        vstd::utf8::is_ascii_chars_encode_utf8(text@);
        assert(vstd::utf8::is_ascii_chars(text@)) by {
            assert forall|i: int| 0 <= i < text@.len() implies '\0' <= #[trigger] text@[i] && text@[i] <= '\u{7f}' by {
                assert(is_b64_char(text@[i]));
            }
        }
        vstd::utf8::is_ascii_chars_encode_utf8(text@);
    }
    encrypt_str(text.as_str(), kek.as_slice(), iv)
}

/// Whether reading the hex text cuts no character.
fn hex_is_safe(s: &str) -> (r: bool)
    ensures
        r == hex_safe(s.spec_bytes()),
{
    let b = s.as_bytes();
    let n = b.len();
    if n % 2 != 0 {
        return true;
    }
    let mut i: usize = n;
    let mut ok = true;
    while i >= 2
        invariant
            n == b@.len(),
            n % 2 == 0,
            i % 2 == 0,
            i <= n,
            ok == pairs_safe(b@, i as int),
        decreases i,
    {
        i = i - 2;
        let here = (b[i] < 0x80 || b[i] > 0xbf || i == 0) && (i + 2 >= n || b[i + 2] < 0x80 || b[i + 2] > 0xbf);
        let bad_pair = if b[i] == 43 {
            hex_value_of(b[i + 1]).is_none()
        } else {
            hex_value_of(b[i]).is_none() || hex_value_of(b[i + 1]).is_none()
        };
        assert(bad_pair == pair_value(b@[i as int], b@[i + 1]) is None);
        ok = here && (bad_pair || ok);
    }
    ok
}

/// What opening a PIN-sealed key gives, once the salt's hex text can be
/// read: a salt that is not hex is refused; otherwise the record is opened
/// as a row under the scrypt key of the PIN and the salt. A wrong PIN gives
/// a wrong key, the tag check fails and the unlock is refused (`Err`), as
/// is a record that does not open to the base64 of a 32-byte key; a record
/// whose nonce is not 12 bytes cannot be read at all (`None`).
pub open spec fn dk_unsealed(pin: Seq<u8>, salt_hex: Seq<u8>, inner: Seq<char>) -> Option<Result<Seq<u8>, ()>> {
    match hex_decoded(salt_hex) {
        None => Some(Err(())),
        Some(salt) => {
            let kek = scrypt_key(pin, salt);
            if !row_nonce_ok(inner) {
                None
            } else {
                match row_plain(kek, inner) {
                    Err(_) => Some(Err(())),
                    Ok(text) => match key_of_text(text) {
                        Ok(w) => Some(Ok(w)),
                        Err(_) => Some(Err(())),
                    },
                }
            }
        },
    }
}

/// Opens the data key sealed under a PIN, `Err` for a wrong PIN or a
/// damaged record; `None` where the salt or the record cannot be read at
/// all. The PIN that sealed a key opens it again.
pub fn unseal_dk(pin: &str, salt_hex: &str, inner: &str) -> (r: Option<Result<Vec<u8>, ()>>)
    ensures
        !hex_safe(salt_hex.spec_bytes()) ==> r is None,
        hex_safe(salt_hex.spec_bytes()) ==> match (r, dk_unsealed(pin.spec_bytes(), salt_hex.spec_bytes(), inner@)) {
            (None, None) => true,
            (Some(Err(_)), Some(Err(_))) => true,
            (Some(Ok(v)), Some(Ok(w))) => v@ == w,
            _ => false,
        },
        forall|salt: Seq<u8>, dk: Seq<u8>, iv: Seq<u8>|
            dk.len() == 32 && iv.len() == 12 && salt_hex@ == hex_of(salt)
                && encode_utf8(b64_text(dk)).len() <= SEAL_MAX && pin_seal_ok(pin.spec_bytes(), salt, dk, iv)
                && inner@ == #[trigger] pin_sealed_key(pin.spec_bytes(), salt, dk, iv) ==> r is Some && r->0 is Ok
                && r->0->Ok_0@ == dk,
{
    broadcast use vstd::utf8::encode_utf8_valid_utf8, vstd::utf8::encode_utf8_decode_utf8;
    proof {
        assert forall|salt: Seq<u8>, dk: Seq<u8>, iv: Seq<u8>|
            dk.len() == 32 && iv.len() == 12 && salt_hex@ == hex_of(salt)
                && encode_utf8(b64_text(dk)).len() <= SEAL_MAX && pin_seal_ok(pin.spec_bytes(), salt, dk, iv)
                && inner@ == #[trigger] pin_sealed_key(pin.spec_bytes(), salt, dk, iv) implies hex_safe(salt_hex.spec_bytes())
            && hex_decoded(salt_hex.spec_bytes()) == Some(salt) by {
            law_hex_round_trip(salt);
        }
    }
    if !hex_is_safe(salt_hex) {
        return None;
    }
    let salt = match hex_decode(salt_hex) {
        Ok(s) => s,
        Err(_) => {
            return Some(Err(()));
        },
    };
    let kek = scrypt_derive(pin.as_bytes(), salt.as_slice());
    match decrypt_row(inner, kek.as_slice()) {
        None => None,
        Some(Err(_)) => Some(Err(())),
        Some(Ok(text)) => match decode_key(text.as_str()) {
            Ok(dk) => Some(Ok(dk)),
            Err(_) => Some(Err(())),
        },
    }
}

/// A key for one purpose (such as keying the search index), derived from
/// the data key so it needs no storage of its own: HMAC-SHA256 of the
/// label under the data key.
pub fn derive_key(dk: &[u8], label: &[u8]) -> (r: Vec<u8>)
    ensures
        r@ == hmac_sha256(dk@, label@),
        r@.len() == 32,
{
    hmac_sha256_of(dk, label)
}


// ---------------------------------------------------------------------------
// Fresh nonces, salts and keys
// ---------------------------------------------------------------------------

/// `n` bytes from rand's thread-local generator (`rand::rng().fill_bytes`),
/// seeded from the operating system. Only their number is claimed: the
/// bytes themselves are chance.
#[verifier::external_body]
fn fresh_bytes(n: usize) -> (r: Vec<u8>)
    ensures
        r@.len() == n,
{
    let mut out = vec![0u8; n];
    rand::rng().fill_bytes(&mut out);
    out
}

/// A new random data key.
pub fn new_data_key() -> (r: Vec<u8>)
    ensures
        r@.len() == 32,
{
    fresh_bytes(32)
}

/// Seals a media file's bytes with the data key under a fresh random
/// nonce (what `encrypt_bytes` does with a nonce it is given); while the
/// vault is locked the bytes pass through unchanged.
pub fn seal_file(key: Option<&[u8]>, plain: &[u8]) -> (r: Vec<u8>)
    requires
        key matches Some(k) ==> k@.len() == 32,
        plain@.len() <= SEAL_MAX,
    ensures
        key is None ==> r@ == plain@,
        key matches Some(k) ==> exists|iv: Seq<u8>| iv.len() == 12 && r@ == #[trigger] sealed_file(k@, iv, plain@)
            && aes_sealed(k@, iv, plain@).len() == plain@.len() + 16,
        key is Some ==> r@.len() == plain@.len() + 33 && r@.take(5) == file_magic(),
{
    let iv = fresh_bytes(12);
    encrypt_bytes(key, iv.as_slice(), plain)
}

/// Seals a text row with the key under a fresh random nonce (what
/// `encrypt_str` does with a nonce it is given).
pub fn seal_text(plain: &str, key: &[u8]) -> (r: String)
    requires
        key@.len() == 32,
        plain.spec_bytes().len() <= SEAL_MAX,
        plain.spec_bytes().len() <= usize::MAX / 2,
    ensures
        exists|iv: Seq<u8>| iv.len() == 12 && r@ == #[trigger] sealed_row(key@, iv, plain.spec_bytes())
            && row_parts_ok(key@, iv, plain.spec_bytes()),
{
    let iv = fresh_bytes(12);
    encrypt_str(plain, key, iv.as_slice())
}

/// Seals the data key under a PIN with a fresh random salt (16 bytes, given
/// back to be kept beside the record) and nonce.
pub fn seal_dk_fresh(pin: &str, dk: &[u8]) -> (r: (String, Vec<u8>))
    requires
        dk@.len() == 32,
    ensures
        r.1@.len() == 16,
        exists|iv: Seq<u8>| iv.len() == 12 && r.0@ == #[trigger] pin_sealed_key(pin.spec_bytes(), r.1@, dk@, iv)
            && pin_seal_ok(pin.spec_bytes(), r.1@, dk@, iv),
{
    let salt = fresh_bytes(16);
    let iv = fresh_bytes(12);
    let sealed = seal_dk(pin, salt.as_slice(), dk, iv.as_slice());
    (sealed, salt)
}

} // verus!
