use zapive::vault::{new_data_key, seal_file, seal_text, 
    account_scope, accounts_or_single, active_account, check_pin_format, decode_key, decrypt_bytes, decrypt_row,
    derive_key, dk_from_record, dk_record, encrypt_bytes, encrypt_str, hex_decode, hex_encode, is_sealed_head, lockout_ms,
    unseal_dk, wipe_scope, Account, KeyError, PinError, RowError,
};

const KEY: [u8; 32] = [7u8; 32];
const IV: [u8; 12] = [1u8; 12];

#[test]
fn hex_reads_back() {
    assert_eq!(hex_encode(&[0x00, 0xab, 0xff, 0x10]), "00abff10");
    assert_eq!(hex_decode("00ABff10"), Ok(vec![0x00, 0xab, 0xff, 0x10]));
    // Integer parsing takes a plus sign before one digit.
    assert_eq!(hex_decode("+a"), Ok(vec![10]));
    assert_eq!(hex_decode("abc"), Err(()));
    assert_eq!(hex_decode("zz"), Err(()));
    assert_eq!(hex_decode(""), Ok(vec![]));
    let bytes: Vec<u8> = (0..=255u8).collect();
    assert_eq!(hex_decode(&hex_encode(&bytes)), Ok(bytes));
}

#[test]
fn pins_are_four_to_ten_digits() {
    assert_eq!(check_pin_format("1234"), Ok(()));
    assert_eq!(check_pin_format("1234567890"), Ok(()));
    assert_eq!(check_pin_format("123"), Err(PinError::BadFormat));
    assert_eq!(check_pin_format("12345678901"), Err(PinError::BadFormat));
    assert_eq!(check_pin_format("12a4"), Err(PinError::BadFormat));
    assert_eq!(check_pin_format("١٢٣٤"), Err(PinError::BadFormat));
}

#[test]
fn failed_unlocks_back_off() {
    assert_eq!(lockout_ms(0), None);
    assert_eq!(lockout_ms(2), None);
    assert_eq!(lockout_ms(3), Some(500));
    assert_eq!(lockout_ms(4), Some(1000));
    assert_eq!(lockout_ms(7), Some(8000));
    assert_eq!(lockout_ms(8), Some(8000));
    assert_eq!(lockout_ms(58), Some(8000));
}

#[test]
fn account_scopes() {
    assert_eq!(account_scope(""), "");
    assert_eq!(account_scope("1a2b3c4d"), "acct:1a2b3c4d:");
    assert_eq!(wipe_scope(""), "store:");
    assert_eq!(wipe_scope("1a2b3c4d"), "acct:1a2b3c4d:");
}

#[test]
fn registry_starts_from_the_single_account_install() {
    let list = accounts_or_single(Vec::new(), Some("5511999998888@s.whatsapp.net".to_string()));
    assert_eq!(list.len(), 1);
    assert_eq!(list[0].id, "");
    assert_eq!(list[0].jid, "5511999998888@s.whatsapp.net");
    assert_eq!(active_account(&list, ""), "");
    let mut list = list;
    list.push(Account { id: "0badc0de".into(), jid: String::new(), name: String::new() });
    assert_eq!(active_account(&list, "0badc0de"), "0badc0de");
    // An id that is gone falls back to the first account.
    assert_eq!(active_account(&list, "missing"), "");
    assert!(active_account(&Vec::new(), "x").is_empty());
}

#[test]
fn media_files_seal_and_open() {
    let sealed = encrypt_bytes(Some(&KEY), &IV, b"hello");
    assert_eq!(&sealed[..5], b"ZENC1");
    assert_eq!(&sealed[5..17], &IV);
    assert_eq!(sealed.len(), 5 + 12 + 16 + 5);
    assert_ne!(&sealed[33..], b"hello");
    assert_eq!(decrypt_bytes(Some(&KEY), &sealed), Ok(b"hello".to_vec()));
    assert_eq!(decrypt_bytes(None, &sealed), Err("file is encrypted and vault is locked".to_string()));
    let mut bad = sealed.clone();
    bad[35] ^= 1;
    assert_eq!(decrypt_bytes(Some(&KEY), &bad), Err("media decryption failed".to_string()));
    assert_eq!(decrypt_bytes(Some(&[9u8; 32]), &sealed), Err("media decryption failed".to_string()));
    // Old plaintext files read as they are; while locked, writes pass through.
    assert_eq!(decrypt_bytes(Some(&KEY), b"plain data"), Ok(b"plain data".to_vec()));
    assert_eq!(encrypt_bytes(None, &IV, b"x"), b"x".to_vec());
}

#[test]
fn text_rows_seal_and_open() {
    let row = encrypt_str("olá mundo", &KEY, &IV);
    assert!(row.starts_with("e:"));
    assert_eq!(row.split(':').count(), 4);
    assert_eq!(decrypt_row(&row, &KEY), Some(Ok("olá mundo".to_string())));
    assert_eq!(decrypt_row(&row, &[9u8; 32]), Some(Err(RowError::Decryption)));
    assert_eq!(decrypt_row("garbage", &KEY), Some(Err(RowError::Malformed)));
    assert_eq!(decrypt_row("x:a:b:c", &KEY), Some(Err(RowError::Malformed)));
    assert_eq!(decrypt_row("e:!!!!:AAAA:AAAA", &KEY), Some(Err(RowError::Encoding)));
    // A nonce of three bytes cannot be used at all.
    assert_eq!(decrypt_row("e:AAAA:AAAA:AAAA", &KEY), None);
}

#[test]
fn the_data_key_record() {
    let dk = [5u8; 32];
    let rec = dk_record(&dk);
    assert!(rec.starts_with("k:"));
    assert_eq!(dk_from_record(&rec), Ok(dk.to_vec()));
    assert_eq!(dk_from_record("xx"), Err(KeyError::Corrupted));
    assert_eq!(dk_from_record("k:AAAA"), Err(KeyError::WrongSize));
    assert_eq!(dk_from_record("k:!!!"), Err(KeyError::NotBase64));
    assert_eq!(decode_key(&rec[2..]), Ok(dk.to_vec()));
}

#[test]
fn unreadable_salts_and_records() {
    // A salt that is not hex fails; one that cuts a character cannot be read.
    assert_eq!(unseal_dk("1234", "zz", "e:a:b:c"), Some(Err(())));
    assert_eq!(unseal_dk("1234", "a\u{e9}b", "e:a:b:c"), None);
}

#[test]
fn derived_keys_differ_by_label() {
    let a = derive_key(&KEY, b"search-index");
    let b = derive_key(&KEY, b"other");
    assert_eq!(a.len(), 32);
    assert_ne!(a, b);
    assert_eq!(a, derive_key(&KEY, b"search-index"));
    assert_ne!(a, b"search-index".to_vec());
}

#[test]
fn sealed_files_are_told_by_their_magic() {
    assert!(is_sealed_head(b"ZENC1"));
    assert!(!is_sealed_head(b"\x89PNG\r"));
    assert!(!is_sealed_head(b"zenc1"));
    let key = [3u8; 32];
    let sealed = encrypt_bytes(Some(&key[..]), &[1u8; 12], b"hello");
    let head: [u8; 5] = sealed[..5].try_into().unwrap();
    assert!(is_sealed_head(&head));
}

#[test]
fn fresh_seals_open_with_the_same_key() {
    let key = new_data_key();
    assert_eq!(key.len(), 32);
    let a = seal_file(Some(&key), b"photo bytes");
    let b = seal_file(Some(&key), b"photo bytes");
    assert_eq!(a.len(), 11 + 33);
    assert!(a.starts_with(b"ZENC1"));
    assert_ne!(a, b);
    assert_eq!(decrypt_bytes(Some(&key), &a), Ok(b"photo bytes".to_vec()));
    assert_eq!(seal_file(None, b"plain"), b"plain".to_vec());
    let row = seal_text("ol\u{e1}", &key);
    assert_eq!(decrypt_row(&row, &key), Some(Ok("ol\u{e1}".to_string())));
}
