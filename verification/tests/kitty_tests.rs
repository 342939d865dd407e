use base64::engine::general_purpose::STANDARD;
use base64::Engine;
use macchina_render::kitty::{
    clean_chafa_output, frame_chafa, is_sixel, is_supported, kitty_image_bytes,
    kitty_payload_bytes, render, render_chafa, thumbnail_size,
};

#[test]
fn kitty_is_supported_by_term() {
    assert!(is_supported(Some("xterm-kitty"), false, None));
    assert!(!is_supported(Some("xterm-256color"), false, None));
    assert!(!is_supported(Some("xterm-kitty2"), false, None));
}

#[test]
fn kitty_is_supported_by_window_id_or_wezterm() {
    assert!(is_supported(None, true, None));
    assert!(is_supported(None, false, Some("WezTerm")));
    assert!(!is_supported(None, false, Some("wezterm")));
    assert!(!is_supported(None, false, None));
}

#[test]
fn cleaning_strips_cursor_sequences() {
    let raw = b"\x1b[?25la\x1b[?25hb\x1b[?25l";
    assert_eq!(clean_chafa_output(raw), b"ab".to_vec());
}

#[test]
fn cleaning_replaces_invalid_utf8() {
    let raw = [b'a', 0xff, b'b'];
    assert_eq!(clean_chafa_output(&raw), "a\u{fffd}b".as_bytes().to_vec());
}

#[test]
fn cleaning_is_a_single_pass() {
    let raw = b"\x1b[?2\x1b[?25l5l";
    assert_eq!(clean_chafa_output(raw), b"\x1b[?25l".to_vec());
}

#[test]
fn sixel_is_detected_by_dcs() {
    assert!(is_sixel(b"xx\x1bPq#0"));
    assert!(!is_sixel(b"\x1b[0mP"));
    assert!(!is_sixel(b"\x1b"));
    assert!(!is_sixel(b""));
}

#[test]
fn symbol_art_is_placed_line_by_line() {
    let out = frame_chafa(b"ab\n\ncd", 5, 2);
    assert_eq!(out, b"\x1b[s\x1b[5;2H\x1b[5;2Hab\x1b[7;2Hcd\x1b[0m\x1b[u\x1b[?25h".to_vec());
}

#[test]
fn sixel_art_is_sent_as_it_is() {
    let out = frame_chafa(b"\x1bPq\nab\x1b\\", 3, 2);
    assert_eq!(out, b"\x1b[s\x1b[3;2H\x1bPq\nab\x1b\\\x1b[0m\x1b[u\x1b[?25h".to_vec());
}

#[test]
fn render_chafa_cleans_then_frames() {
    let out = render_chafa(b"\x1b[?25lab\n", 2, 2).unwrap();
    assert_eq!(out, b"\x1b[s\x1b[2;2H\x1b[2;2Hab\x1b[0m\x1b[u\x1b[?25h".to_vec());
}

#[test]
fn render_chafa_refuses_rows_past_the_last() {
    assert!(render_chafa(b"a\nb", 65535, 2).is_none());
    assert!(render_chafa(b"a\n", 65535, 2).is_some());
    assert!(render_chafa(b"\x1bPa\nb", 65535, 2).is_some());
}

#[test]
fn kitty_payload_of_one_chunk() {
    let out = kitty_payload_bytes(b"QUJD", 20, 12, 3, 2);
    assert_eq!(out, b"\x1b[s\x1b[3;2H\x1b_Ga=T,f=100,q=2,c=20,r=12,m=0;QUJD\x1b\\\x1b[u".to_vec());
}

#[test]
fn kitty_payload_splits_into_chunks_of_4096() {
    let data = vec![b'A'; 5000];
    let out = kitty_payload_bytes(&data, 7, 10, 1, 1);
    let mut expected = b"\x1b[s\x1b[1;1H\x1b_Ga=T,f=100,q=2,c=7,r=10,m=1;".to_vec();
    expected.extend(vec![b'A'; 4096]);
    expected.extend(b"\x1b\\\x1b_Gm=0;");
    expected.extend(vec![b'A'; 904]);
    expected.extend(b"\x1b\\\x1b[u");
    assert_eq!(out, expected);
}

#[test]
fn kitty_payload_of_exactly_two_chunks() {
    let data = vec![b'B'; 8192];
    let out = kitty_payload_bytes(&data, 1, 1, 1, 1);
    let text = String::from_utf8(out).unwrap();
    assert_eq!(text.matches("\x1b_G").count(), 2);
    assert!(text.contains("m=1;"));
    assert!(text.contains("\x1b_Gm=0;"));
}

#[test]
fn kitty_payload_of_nothing_has_no_messages() {
    assert_eq!(kitty_payload_bytes(b"", 1, 1, 4, 2), b"\x1b[s\x1b[4;2H\x1b[u".to_vec());
}

#[test]
fn kitty_image_bytes_encode_base64() {
    let out = kitty_image_bytes(b"hi", 20, 10, 2, 2);
    assert_eq!(out, b"\x1b[s\x1b[2;2H\x1b_Ga=T,f=100,q=2,c=20,r=10,m=0;aGk=\x1b\\\x1b[u".to_vec());
}

#[test]
fn thumbnail_size_is_ten_by_twenty_pixels_a_cell() {
    assert_eq!(thumbnail_size(20, 12), (200, 240));
    assert_eq!(thumbnail_size(65535, 65535), (655350, 1310700));
}

#[test]
fn render_sends_a_png() {
    let img = image::DynamicImage::ImageRgb8(image::RgbImage::from_pixel(40, 40, image::Rgb([255, 0, 0])));
    let out = render(&img, 2, 1, 5, 2).unwrap();
    let text = String::from_utf8(out).unwrap();
    let prefix = "\x1b[s\x1b[5;2H\x1b_Ga=T,f=100,q=2,c=2,r=1,m=0;";
    assert!(text.starts_with(prefix));
    assert!(text.ends_with("\x1b\\\x1b[u"));
    let payload = &text[prefix.len()..text.len() - "\x1b\\\x1b[u".len()];
    let png = STANDARD.decode(payload).unwrap();
    assert_eq!(&png[..8], b"\x89PNG\r\n\x1a\n");
    let decoded = image::load_from_memory(&png).unwrap();
    assert_eq!((decoded.width(), decoded.height()), (20, 20));
}

#[test]
fn cleaning_keeps_plain_text() {
    let raw = "\x1b[31m▀▄ ok\n".as_bytes();
    assert_eq!(clean_chafa_output(raw), raw.to_vec());
}

#[test]
fn base64_follows_the_standard_alphabet_and_padding() {
    let cases: [(&[u8], &str); 6] = [
        (b"f", "Zg=="),
        (b"fo", "Zm8="),
        (b"foo", "Zm9v"),
        (b"foob", "Zm9vYg=="),
        (&[0xff, 0xfe, 0xfd], "//79"),
        (&[0x00, 0x10, 0x83, 0x10, 0x51, 0x87], "ABCDEFGH"),
    ];
    for (data, encoded) in cases {
        let out = kitty_image_bytes(data, 1, 1, 1, 1);
        let expected = format!("\x1b[s\x1b[1;1H\x1b_Ga=T,f=100,q=2,c=1,r=1,m=0;{}\x1b\\\x1b[u", encoded);
        assert_eq!(String::from_utf8(out).unwrap(), expected);
    }
}

#[test]
fn render_keeps_the_thumbnail_within_the_cells() {
    let img = image::DynamicImage::ImageLuma8(image::GrayImage::from_pixel(300, 50, image::Luma([7])));
    let out = render(&img, 3, 2, 1, 1).unwrap();
    let text = String::from_utf8(out).unwrap();
    let start = text.find("m=0;").unwrap() + 4;
    let payload = &text[start..text.len() - "\x1b\\\x1b[u".len()];
    let png = STANDARD.decode(payload).unwrap();
    let decoded = image::load_from_memory(&png).unwrap();
    assert_eq!((decoded.width(), decoded.height()), (30, 5));
    assert_eq!(decoded.color(), image::ColorType::L8);
}

#[test]
fn joined_chunks_decode_to_the_png_data() {
    let data: Vec<u8> = (0..5000u32).map(|i| (i * 7 % 251) as u8).collect();
    let out = kitty_image_bytes(&data, 3, 4, 1, 1);
    let text = String::from_utf8(out).unwrap();
    let mut joined = String::new();
    for message in text.split("\x1b_G").skip(1) {
        let body = &message[message.find(';').unwrap() + 1..];
        joined.push_str(&body[..body.find("\x1b\\").unwrap()]);
    }
    assert_eq!(text.matches("\x1b_G").count(), 2);
    assert_eq!(STANDARD.decode(joined).unwrap(), data);
}
