use inkwordle::engine::Kind;
use inkwordle::preprocess::{crop_box, Crop, CANVAS, GLYPH_BALANCED, GLYPH_DIGIT, GLYPH_PRIMARY};

fn plane(w: usize, h: usize, ink: &[(usize, usize, u8)]) -> Vec<u8> {
    let mut p = vec![0u8; w * h];
    for &(x, y, v) in ink {
        p[y * w + x] = v;
    }
    p
}

#[test]
fn crop_box_pads_the_inked_box() {
    let mut ink = Vec::new();
    for y in 2..=4 {
        for x in 3..=5 {
            ink.push((x, y, 255u8));
        }
    }
    let p = plane(10, 8, &ink);
    let c = crop_box(&p, 10, 8).ok().unwrap();
    assert_eq!(c, Crop { top: 1, left: 2, bottom: 6, right: 7 });
}

#[test]
fn crop_box_clips_margin_to_plane() {
    let p = plane(10, 8, &[(0, 0, 255), (9, 7, 255)]);
    let c = crop_box(&p, 10, 8).ok().unwrap();
    assert_eq!(c, Crop { top: 0, left: 0, bottom: 8, right: 10 });
}

#[test]
fn crop_box_rejects_blank_and_faint_drawings() {
    assert!(crop_box(&plane(10, 8, &[]), 10, 8).is_err());
    // one inked pixel, but too little ink in total
    assert!(crop_box(&plane(10, 8, &[(4, 4, 100)]), 10, 8).is_err());
    // plenty of ink in total, but no pixel above the ink threshold
    assert!(crop_box(&vec![9u8; 80], 10, 8).is_err());
    // just enough: one pixel of 10 (ink) plus 59 pixels of 2, below the threshold
    let mut p = vec![0u8; 80];
    for i in 0..60 {
        p[i] = 2;
    }
    p[44] = 10;
    assert_eq!(crop_box(&p, 10, 8).ok(), Some(Crop { top: 3, left: 3, bottom: 6, right: 6 }));
    assert!(crop_box(&[], 0, 0).is_err());
}

#[test]
fn kind_labels_and_shapes() {
    let p = Kind::Primary.labels();
    assert_eq!(p.len(), 62);
    assert_eq!((p[0], p[9], p[10], p[35], p[36], p[61]), ('0', '9', 'A', 'Z', 'a', 'z'));
    assert_eq!(Kind::Digit.labels().into_iter().collect::<String>(), "0123456789");
    let b = Kind::Balanced.labels();
    assert_eq!(b.len(), 47);
    assert_eq!(b[36..].iter().collect::<String>(), "abdefghnqrt");
    assert_eq!(Kind::Primary.name(), "emnist-62");
    assert_eq!(Kind::Digit.name(), "mnist-12");
    assert_eq!(Kind::Balanced.name(), "balanced-47");
    assert_eq!(Kind::Primary.glyph_size(), GLYPH_PRIMARY);
    assert_eq!(Kind::Digit.glyph_size(), GLYPH_DIGIT);
    assert_eq!(Kind::Balanced.glyph_size(), GLYPH_BALANCED);
    assert_eq!(Kind::Primary.input_shape(), [1, 1, CANVAS, CANVAS]);
    assert_eq!(Kind::Balanced.input_shape(), [1, CANVAS, CANVAS, 1]);
}
