use zapive::media::{
    avatar_file_name, backoff_until, backoff_wait, cache_file_name, kind_ext, link_thumb_file_name, migrated_name,
    plain_ext, rate_limited, sanitize, sticker_file_name, sticker_key, temp_file_name, BACKOFF_MS,
};

#[test]
fn ids_become_safe_file_names() {
    assert_eq!(sanitize("a/b c-d_e"), "a_b_c-d_e");
    assert_eq!(sanitize("3EB0..9F"), "3EB0__9F");
    assert_eq!(sanitize("ç"), "_");
    assert_eq!(sanitize(""), "");
}

#[test]
fn mimetypes_pick_the_cache_kind() {
    assert_eq!(kind_ext("image/jpeg"), "photo");
    assert_eq!(kind_ext(" video/mp4 ; codecs=avc1"), "video");
    assert_eq!(kind_ext("audio/ogg; codecs=opus"), "audio");
    assert_eq!(kind_ext("application/pdf"), "doc");
    assert_eq!(kind_ext(""), "doc");
}

#[test]
fn kinds_pick_the_plain_extension() {
    assert_eq!(plain_ext("photo"), "jpg");
    assert_eq!(plain_ext("link"), "jpg");
    assert_eq!(plain_ext("avatar"), "jpg");
    assert_eq!(plain_ext("sticker"), "webp");
    assert_eq!(plain_ext("video"), "mp4");
    assert_eq!(plain_ext("audio"), "ogg");
    assert_eq!(plain_ext("doc"), "bin");
}

#[test]
fn cache_names() {
    assert_eq!(cache_file_name("AB/12", "image/png"), "AB_12.photo");
    assert_eq!(link_thumb_file_name("x y"), "x_y.link");
    assert_eq!(avatar_file_name("5511@s.whatsapp.net"), "5511_s_whatsapp_net.avatar");
    assert_eq!(temp_file_name("AB_12", "sticker"), "AB_12.webp");
}

#[test]
fn old_cache_files_move_to_kinds() {
    assert_eq!(migrated_name("lnk_AB", "jpg"), Some("AB.link".to_string()));
    assert_eq!(migrated_name("stk_AB", "webp"), Some("AB.sticker".to_string()));
    assert_eq!(migrated_name("AB", "webp"), Some("AB.photo".to_string()));
    assert_eq!(migrated_name("AB", "3gp"), Some("AB.video".to_string()));
    assert_eq!(migrated_name("AB", "m4a"), Some("AB.audio".to_string()));
    assert_eq!(migrated_name("AB", "pdf"), Some("AB.doc".to_string()));
    assert_eq!(migrated_name("AB", "txt"), None);
}

#[test]
fn throttling_holds_downloads_back() {
    assert!(rate_limited("server said 429"));
    assert!(rate_limited("rate-overlimit"));
    assert!(!rate_limited("timeout"));
    assert_eq!(BACKOFF_MS, 30_000);
    let until = backoff_until(1_000);
    assert_eq!(until, 31_000);
    assert_eq!(backoff_wait(until, 11_000), 20_000);
    assert_eq!(backoff_wait(until, 40_000), 0);
    assert_eq!(backoff_wait(0, 5), 0);
}

#[test]
fn stickers_are_keyed_by_their_hash() {
    let sha: [u8; 3] = [0x00, 0xab, 0x7f];
    let key = sticker_key(Some(&sha[..])).unwrap();
    assert_eq!(key, "00ab7f");
    assert_eq!(sticker_file_name(&key), "00ab7f.sticker");
    assert_eq!(sticker_key(Some(&[][..])), None);
    assert_eq!(sticker_key(None), None);
}

#[test]
fn cache_names_stay_in_the_cache_and_apart() {
    for (id, mime) in [("../../etc/passwd", "image/png"), ("a\\b.link", "text/plain"), ("x", "video/mp4")] {
        let name = cache_file_name(id, mime);
        assert!(!name.contains('/') && !name.contains('\\'));
        assert_ne!(name, link_thumb_file_name(id));
        assert_ne!(name, link_thumb_file_name("x"));
    }
    assert_eq!(cache_file_name("../x", "image/png"), "___x.photo");
}
