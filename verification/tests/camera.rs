use zapive::camera::{camera_choice, copy_gray, copy_packed};

#[test]
fn frames_are_packed_with_channels_reordered() {
    let data: Vec<u8> = (1..=12).collect();
    let mut out = [0u8; 6];
    assert!(copy_packed(&data, 2, 1, 2, &mut out, [2, 1, 0]));
    assert_eq!(out, [3, 2, 1, 9, 8, 7]);
    let mut same = [0u8; 6];
    assert!(copy_packed(&data, 2, 1, 2, &mut same, [0, 1, 2]));
    assert_eq!(same, [1, 2, 3, 7, 8, 9]);
}

#[test]
fn short_frames_copy_nothing() {
    let data: Vec<u8> = (1..=11).collect();
    let mut out = [5u8; 6];
    assert!(!copy_packed(&data, 2, 1, 2, &mut out, [0, 1, 2]));
    assert_eq!(out, [5u8; 6]);
}

#[test]
fn gray_frames_fill_every_channel() {
    let data: Vec<u8> = (1..=6).collect();
    let mut out = [0u8; 6];
    assert!(copy_gray(&data, 3, 2, 1, 2, &mut out));
    assert_eq!(out, [1, 1, 1, 4, 4, 4]);
    let mut short = [7u8; 6];
    assert!(!copy_gray(&data[..5], 3, 2, 1, 2, &mut short));
    assert_eq!(short, [7u8; 6]);
}

#[test]
fn a_saved_camera_is_found_by_name() {
    let names = vec!["Integrated".to_string(), "USB Cam".to_string(), "USB Cam".to_string()];
    assert_eq!(camera_choice(&names, Some("USB Cam")), Some(1));
    assert_eq!(camera_choice(&names, Some("Gone")), None);
    assert_eq!(camera_choice(&names, Some("")), None);
    assert_eq!(camera_choice(&names, None), None);
}

#[test]
fn a_wider_crop_reads_on_into_the_next_row() {
    let data: Vec<u8> = (1..=12).collect();
    let mut out = vec![0u8; 12];
    assert!(copy_packed(&data, 1, 2, 2, &mut out, [0, 1, 2]));
    assert_eq!(out, vec![1, 2, 3, 4, 5, 6, 4, 5, 6, 7, 8, 9]);
}
