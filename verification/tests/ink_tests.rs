use inkwordle::ink::{ink_disk, ink_segment, isqrt_u32};
use inkwordle::definitions::{get, overlay_tsv, parse_tsv};
use inkwordle::game::parse;
use inkwordle::history::{history_file, remember, CAP};
use inkwordle::text::utf8_ok;

#[test]
fn isqrt_floors() {
    for n in 0..2000u32 {
        let r = isqrt_u32(n) as u32;
        assert!(r * r <= n && (r + 1) * (r + 1) > n);
    }
    assert_eq!(isqrt_u32(u32::MAX - 1), 65535);
    assert_eq!(isqrt_u32(16), 4);
    assert_eq!(isqrt_u32(15), 3);
}

#[test]
fn ink_disk_fills_clipped_disk() {
    let mut ink = vec![0u8; 10 * 6];
    ink_disk(&mut ink, 10, 6, 0, 0, 2);
    for y in 0..6i32 {
        for x in 0..10i32 {
            let on = x * x + y * y <= 4;
            assert_eq!(ink[(y * 10 + x) as usize] == 255, on, "{x},{y}");
        }
    }
}

#[test]
fn ink_segment_covers_both_ends() {
    let mut ink = vec![0u8; 40 * 10];
    ink_segment(&mut ink, 40, 10, 2, 5, 37, 5, 4);
    for x in 0..40 {
        assert_eq!(ink[5 * 40 + x] == 255, true, "{x}");
    }
    assert_eq!(ink[0], 0);
    let mut dot = vec![0u8; 5 * 5];
    ink_segment(&mut dot, 5, 5, 2, 2, 2, 2, 0);
    assert_eq!(dot.iter().filter(|&&b| b == 255).count(), 1);
}

#[test]
fn definitions_parse_and_lookup() {
    let text = "# comment\n\ncrane\tA large wading bird.  \n  SPEED \t fast \nbad\tword\nnodef\t   \nspeed\tquickness\nabbey\r\n";
    let map = parse_tsv(text.as_bytes());
    assert_eq!(map.len(), 2);
    assert_eq!(get(&map, b"crane").map(|v| v.as_slice()), Some(&b"A large wading bird."[..]));
    assert_eq!(get(&map, b"CRANE").map(|v| v.as_slice()), Some(&b"A large wading bird."[..]));
    assert_eq!(get(&map, b"speed").map(|v| v.as_slice()), Some(&b"quickness"[..]));
    assert!(get(&map, b"abbey").is_none());
    assert!(get(&map, &[0xC3, 0xA9, b'a', b'b', b'c']).is_none());
}

#[test]
fn history_keeps_newest_cap() {
    let mut recent: Vec<[u8; 5]> = Vec::new();
    for i in 0..(CAP + 5) {
        let w = [b'a' + (i % 26) as u8, b'a' + (i / 26 % 26) as u8, b'x', b'y', b'z'];
        remember(&mut recent, w);
        assert_eq!(*recent.last().unwrap(), w);
    }
    assert_eq!(recent.len(), CAP);
    assert_eq!(recent[0], [b'a' + 5, b'a', b'x', b'y', b'z']);
}

#[test]
fn definitions_trim_unicode_whitespace() {
    let text = "\u{a0}crane\u{2003}\t\u{3000}A large wading bird.\u{a0}\n";
    let map = parse_tsv(text.as_bytes());
    assert_eq!(get(&map, b"crane").map(|v| v.as_slice()), Some("A large wading bird.".as_bytes()));
}

#[test]
fn history_file_round_trips_through_parse() {
    let recent = [*b"crane", *b"speed", *b"abbey"];
    let text = history_file(&recent);
    assert_eq!(text, b"crane\nspeed\nabbey".to_vec());
    assert_eq!(parse(&text), recent.to_vec());
    assert!(utf8_ok(&text));
    // entries that are not UTF-8 text are left out; other text is kept as is
    let mixed = [[0xFF, b'a', b'b', b'c', b'd'], *b"Cr\xC3\xA9e", *b"swale"];
    assert_eq!(history_file(&mixed), b"Cr\xC3\xA9e\nswale".to_vec());
    assert!(history_file(&[]).is_empty());
}

#[test]
fn utf8_validity_follows_the_standard_table() {
    assert!(utf8_ok(b"plain ascii"));
    assert!(utf8_ok("é\u{3000}\u{10FFFF}".as_bytes()));
    assert!(!utf8_ok(&[0xC0, 0x80]));
    assert!(!utf8_ok(&[0xED, 0xA0, 0x80]));
    assert!(!utf8_ok(&[0xF4, 0x90, 0x80, 0x80]));
    assert!(!utf8_ok(&[0xE2, 0x80]));
    assert!(utf8_ok(&[]));
}

#[test]
fn definitions_file_overlays_the_built_in_table() {
    let base = b"crane\tA large wading bird.\nspeed\tquickness\n";
    let over = b"SPEED\trapidity\nabbey\ta monastery\n";
    let map = overlay_tsv(base, Some(over));
    assert_eq!(map.len(), 3);
    assert_eq!(get(&map, b"crane").map(|v| v.as_slice()), Some(&b"A large wading bird."[..]));
    assert_eq!(get(&map, b"speed").map(|v| v.as_slice()), Some(&b"rapidity"[..]));
    assert_eq!(get(&map, b"abbey").map(|v| v.as_slice()), Some(&b"a monastery"[..]));
    let alone = overlay_tsv(base, None);
    assert_eq!(alone.len(), 2);
    assert_eq!(get(&alone, b"speed").map(|v| v.as_slice()), Some(&b"quickness"[..]));
    assert_eq!(overlay_tsv(b"", Some(over)).len(), 2);
}
