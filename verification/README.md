# zapive

The logic of Zapive, a WhatsApp desktop client, as a Verus library: every
public function in `src/` carries a contract that Verus proves (a few
private helpers carry none), the calls into outside crates go through small
trusted wrappers, and the laws the app relies on are stated as proof
functions beside them.

## Layout

- `src/text.rs`, `src/unicode.rs`, `src/table.rs`: text helpers, the
  Unicode classes std and regex answer, and an insertion-ordered map with
  distinct keys that stands for the hash maps of the store.
- `src/store.rs`: chats, messages, contacts, aliases, calls and status
  updates; the chat list order, time order, merging of lid and phone chats.
- `src/wa_map.rs`: what an incoming message becomes in the store.
- `src/view.rs`, `src/bridge.rs`: what the window shows (chat lists,
  rows, notifications, mentions, forwarding, media fetches, read marks).
- `src/markup.rs`: WhatsApp markup to markdown and to plain text with a
  click map.
- `src/search.rs`: folding, keyed index terms, queries, ranking, snippets.
- `src/vault.rs`: the sealed formats of rows, files and the data key, PIN
  rules and accounts.
- `src/media.rs`, `src/video.rs`, `src/camera.rs`, `src/qr.rs`: cache
  names and throttling, H.264 framing, camera frame packing, the QR picture.
- `src/wa.rs`, `src/call.rs`, `src/update.rs`, `src/i18n.rs`: the link's
  retry logic, receipts, calls, release checks, UI strings.
- `app/`: the program around the library: files, SQLite, the system key
  store, clocks, the release list, and the floating-point pixel and tone
  work.
- `tests/`: tests of the library on concrete values.

Outside crates (regex, hmac, sha2, aes-gcm, base64, scrypt, url, qrcode,
self_update)
are called from `src/` through small trusted wrappers whose contracts say
what their documentation and source promise.
