use oxide_seeker::float32::Float32;
use oxide_seeker::ocr::det::{
    binarize, components, find_components, reading_order, Component, TextBox,
};
use oxide_seeker::ocr::rec::{batches, build_vocab, ctc_greedy, decode_batch};
use oxide_seeker::text::{
    decimal_i64, decimal_u64, lines, parse_i32, parse_u64, parse_usize, trim, white, words,
};

fn f(x: f32) -> Float32 {
    Float32 { bits: x.to_bits() }
}

fn vocab(chars: &[&str]) -> Vec<String> {
    std::iter::once(String::new()).chain(chars.iter().map(|s| s.to_string())).collect()
}

fn one_hot(t_steps: &[usize], n_class: usize) -> Vec<Float32> {
    let mut v = vec![f(0.0); t_steps.len() * n_class];
    for (t, &c) in t_steps.iter().enumerate() {
        v[t * n_class + c] = f(1.0);
    }
    v
}

fn score(probs: &[Float32]) -> f32 {
    let sum: f32 = probs.iter().map(|p| f32::from_bits(p.bits)).sum();
    if probs.is_empty() {
        0.0
    } else {
        sum / probs.len() as f32
    }
}

#[test]
fn ctc_collapses_repeats_and_blanks() {
    let v = vocab(&["A", "B", "C"]);
    let steps = [1usize, 1, 0, 1, 2, 2, 0, 3];
    let probs = one_hot(&steps, 4);
    let line = ctc_greedy(&v, &probs, steps.len(), 4);
    assert_eq!(line.text, "AABC");
    assert!((score(&line.probs) - 1.0).abs() < 1e-6);
}

#[test]
fn ctc_all_blank_is_empty_zero_score() {
    let v = vocab(&["A"]);
    let steps = [0usize, 0, 0];
    let probs = one_hot(&steps, 2);
    let line = ctc_greedy(&v, &probs, steps.len(), 2);
    assert_eq!(line.text, "");
    assert_eq!(score(&line.probs), 0.0);
}

#[test]
fn the_last_of_equally_likely_classes_wins() {
    let v = vocab(&["A", "B"]);
    let line = ctc_greedy(&v, &[f(0.5), f(0.7), f(0.7)], 1, 3);
    assert_eq!(line.text, "B");
    assert_eq!(line.probs, vec![f(0.7)]);
}

#[test]
fn classes_beyond_the_vocabulary_say_nothing() {
    let v = vocab(&["A"]);
    let line = ctc_greedy(&v, &one_hot(&[2, 1], 3), 2, 3);
    assert_eq!(line.text, "A");
    assert_eq!(line.probs.len(), 1);
}

#[test]
fn lines_of_a_batch_are_read_apart() {
    let v = vocab(&["A", "B"]);
    let probs = one_hot(&[1, 0, 2, 2], 3);
    let read = decode_batch(&v, &probs, 2, 2, 3);
    assert_eq!(read.len(), 2);
    assert_eq!((read[0].text.as_str(), read[1].text.as_str()), ("A", "B"));
    assert_eq!(batches(33), vec![(0, 16), (16, 32), (32, 33)]);
}

#[test]
fn the_vocabulary_has_a_blank_and_a_space() {
    assert_eq!(build_vocab("a\nb\r\n茶"), vec!["", "a", "b", "茶", " "]);
    assert_eq!(build_vocab(""), vec!["", " "]);
}

#[test]
fn reading_order_survives_band_chains() {
    let mut boxes = vec![
        TextBox { x: 300, y: 0, w: 50, h: 20 },
        TextBox { x: 200, y: 8, w: 50, h: 20 },
        TextBox { x: 100, y: 16, w: 50, h: 20 },
        TextBox { x: 0, y: 200, w: 50, h: 20 },
    ];
    boxes.reverse();
    let ordered = reading_order(&boxes);

    assert_eq!(ordered.len(), 4);
    assert_eq!(ordered.last().unwrap().y, 200);
    let mut top: Vec<u32> = ordered[..3].iter().map(|b| b.x).collect();
    top.sort_unstable();
    assert_eq!(top, vec![100, 200, 300], "top boxes are exactly the chain members");
}

#[test]
fn rows_are_read_from_the_left() {
    let b = |x: u32, y: u32| TextBox { x, y, w: 10, h: 20 };
    let ordered = reading_order(&vec![b(50, 100), b(90, 2), b(10, 0), b(5, 104)]);
    assert_eq!(ordered, vec![b(10, 0), b(90, 2), b(5, 104), b(50, 100)]);
}

#[test]
fn likely_pixels_are_white() {
    let at = f(0.3);
    let above = Float32 { bits: at.bits + 1 };
    assert_eq!(binarize(&vec![f(0.0), at, above, f(1.0), f(f32::NAN)]), vec![0, 0, 255, 255, 0]);
}

#[test]
fn components_have_tight_boxes() {
    let labels = vec![
        0, 7, 7, 0, //
        0, 7, 0, 2, //
        0, 0, 0, 2,
    ];
    let found = components(&labels, 4, 3);
    assert_eq!(
        found,
        vec![
            Component { label: 7, min_x: 1, min_y: 0, max_x: 2, max_y: 1, count: 3 },
            Component { label: 2, min_x: 3, min_y: 1, max_x: 3, max_y: 2, count: 2 },
        ]
    );
    assert_eq!(components(&vec![], 0, 5), vec![]);
}

#[test]
fn likely_pixels_become_components() {
    // Two pixels that touch once they are widened, and one that is far away.
    let (w, h) = (12u32, 8u32);
    let mut prob = vec![f(0.0); 96];
    prob[2 * 12 + 2] = f(0.9);
    prob[2 * 12 + 4] = f(0.9);
    prob[6 * 12 + 10] = f(0.9);
    let detection = find_components(&prob, w, h);
    let found = detection.components;
    assert_eq!(detection.labels[0], 0);
    assert_eq!(detection.labels[2 * 12 + 2], found[0].label);
    assert_eq!((found[0].label, found[1].label), (1, 2));
    assert_eq!(find_components(&vec![f(0.9), f(0.0)], 1, 2).labels, vec![1, 1]);
    assert_eq!(find_components(&vec![], 0, 3).labels, Vec::<u32>::new());
    let boxes: Vec<(u32, u32, u32, u32, u64)> =
        found.iter().map(|c| (c.min_x, c.min_y, c.max_x, c.max_y, c.count)).collect();
    assert_eq!(boxes, vec![(1, 1, 5, 3, 15), (9, 5, 11, 7, 9)]);
    // At the corner of the image too little is left to be text.
    let mut corner = vec![f(0.0); 96];
    corner[0] = f(0.9);
    assert_eq!(find_components(&corner, w, h).components, vec![]);
}

#[test]
fn parts_that_touch_at_a_corner_are_one() {
    let mut prob = vec![f(0.0); 100];
    prob[2 * 10 + 2] = f(0.9);
    prob[5 * 10 + 5] = f(0.9);
    let found = find_components(&prob, 10, 10).components;
    assert_eq!(found.len(), 1);
    assert_eq!((found[0].min_x, found[0].max_x, found[0].count), (1, 6, 18));
}

#[test]
fn texts_are_cut_like_the_standard_library_does() {
    for s in ["", "  a b ", "a\u{3000}b\u{a0}c", "\u{feff}x", "one\ttwo\r\nthree", "\u{85}\u{2028}"] {
        let expected: Vec<String> = s.split_whitespace().map(|w| w.to_string()).collect();
        let got: Vec<String> = words(s).into_iter().map(|w| w.into_iter().collect()).collect();
        assert_eq!(got, expected);
        assert_eq!(trim(s), s.trim());
    }
    for s in ["", "a", "a\n", "a\r\nb", "a\n\nb\r", "\n", "\r\n\r\n", "x\r\r\n"] {
        let expected: Vec<String> = s.lines().map(|l| l.to_string()).collect();
        assert_eq!(lines(s), expected);
    }
    for c in (0..0x11_0000u32).filter_map(char::from_u32) {
        assert_eq!(white(c), c.is_whitespace());
    }
}

#[test]
fn numbers_are_written_and_read_like_the_standard_library_does() {
    for n in [0, 7, 10, 99, 100, -1, -10, i64::MAX, i64::MIN] {
        assert_eq!(decimal_i64(n), n.to_string());
    }
    assert_eq!(decimal_u64(u64::MAX), u64::MAX.to_string());
    for s in [
        "", "0", "+", "-", "+5", "-5", "007", "18446744073709551615", "18446744073709551616",
        "99999999999999999999999", "1a", "a1", " 1", "2147483647", "2147483648", "-2147483648",
        "-2147483649", "--1", "+-1",
    ] {
        assert_eq!(parse_u64(s), s.parse::<u64>().ok(), "{}", s);
        assert_eq!(parse_usize(s), s.parse::<usize>().ok(), "{}", s);
        assert_eq!(parse_i32(s), s.parse::<i32>().ok(), "{}", s);
    }
}
