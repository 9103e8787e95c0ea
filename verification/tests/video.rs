use zapive::video::{annexb_nals, avcc_to_annexb, nal_types, quarter_turns, rgb_to_rgba, scaled_size};

#[test]
fn length_prefixes_become_start_codes() {
    let sample = [0, 0, 0, 2, 0x65, 0x88, 0, 0, 0, 1, 0x41];
    let mut out = vec![9u8];
    avcc_to_annexb(&sample, &mut out);
    assert_eq!(out, vec![9, 0, 0, 0, 1, 0x65, 0x88, 0, 0, 0, 1, 0x41]);
    // A length that runs past the sample ends it.
    let mut cut = Vec::new();
    avcc_to_annexb(&[0, 0, 0, 5, 1], &mut cut);
    assert!(cut.is_empty());
    let mut zero = Vec::new();
    avcc_to_annexb(&[0, 0, 0, 0, 1, 2], &mut zero);
    assert!(zero.is_empty());
}

#[test]
fn streams_split_into_their_units() {
    let stream = [0, 0, 0, 1, 0x67, 0xAA, 0, 0, 1, 0x68, 0xBB, 0, 0, 0, 1, 0x65];
    let nals = annexb_nals(&stream);
    assert_eq!(nals, vec![&[0x67u8, 0xAA][..], &[0x68, 0xBB][..], &[0x65][..]]);
    assert!(annexb_nals(&[1, 2, 3]).is_empty());
    assert_eq!(nal_types(&stream), vec![7, 8, 5]);
    assert!(nal_types(&[0, 0, 1]).is_empty());
}

#[test]
fn track_matrices_give_quarter_turns() {
    assert_eq!(quarter_turns(0, 65536, -65536, 0), 1);
    assert_eq!(quarter_turns(-65536, 0, 0, -65536), 2);
    assert_eq!(quarter_turns(0, -65536, 65536, 0), 3);
    assert_eq!(quarter_turns(65536, 0, 0, 65536), 0);
}

#[test]
fn frames_gain_alpha_and_shrink_evenly() {
    assert_eq!(rgb_to_rgba(&[1, 2, 3, 4, 5, 6]), vec![1, 2, 3, 255, 4, 5, 6, 255]);
    assert!(rgb_to_rgba(&[]).is_empty());
    assert_eq!(scaled_size(640, 360, 1000), None);
    assert_eq!(scaled_size(1920, 1080, 641), Some((640, 360)));
    assert_eq!(scaled_size(1000, 3, 501), Some((500, 2)));
}

#[test]
fn units_survive_both_framings() {
    let units: Vec<Vec<u8>> = vec![vec![0x65, 1, 2], vec![0, 0, 2, 7, 0], vec![0x41]];
    let mut sample = Vec::new();
    for u in &units {
        sample.extend_from_slice(&(u.len() as u32).to_be_bytes());
        sample.extend_from_slice(u);
    }
    let mut out = Vec::new();
    avcc_to_annexb(&sample, &mut out);
    let back: Vec<Vec<u8>> = annexb_nals(&out).into_iter().map(|n| n.to_vec()).collect();
    assert_eq!(back, units);
}
