use inkwordle::game::Mark::{Absent, Correct, Present};
use inkwordle::game::{correct_guess, parse, Game, Mark, State, Words, COLS};

fn w(s: &str) -> [u8; 5] {
    let mut a = [0u8; 5];
    a.copy_from_slice(s.as_bytes());
    a
}

/// A deterministic pool of distinct five-letter lowercase words, standing in
/// for the shipped answer list: a few real words first, then generated ones.
fn answers_text() -> String {
    let mut words: Vec<String> = vec!["crane".to_string(), "speed".to_string(), "abbey".to_string(), "swale".to_string()];
    let mut seed: u64 = 0x2545_f491_4f6c_dd1d;
    while words.len() < 2315 {
        seed = seed.wrapping_mul(6364136223846793005).wrapping_add(1442695040888963407);
        let mut s = String::new();
        let mut v = seed >> 20;
        for _ in 0..5 {
            s.push((b'a' + (v % 26) as u8) as char);
            v /= 26;
        }
        if !words.contains(&s) {
            words.push(s);
        }
    }
    words.join("\n")
}

fn load_words() -> Words {
    let answers = answers_text();
    let valid = "erase\nbabes\neerie\nsnale\n";
    Words::load(answers.as_bytes(), valid.as_bytes())
}

#[test]
fn scoring_duplicates() {
    // trivial: an exact guess is all green
    assert_eq!(Game::score(&w("crane"), &w("crane")), [Correct; 5]);
    // answer SPEED (two E's), guess ERASE (two E's, none aligned):
    // both E's become Present (answer has 2), S also Present.
    assert_eq!(Game::score(&w("speed"), &w("erase")), [Present, Absent, Absent, Present, Present]);
    // answer ABBEY (one E, two B), guess BABES:
    // pos2 B and pos3 E are green; the remaining B and A are present; trailing S absent.
    assert_eq!(Game::score(&w("abbey"), &w("babes")), [Present, Present, Correct, Correct, Absent]);
    // over-guessing a single letter: answer ABBEY (one E), guess EERIE:
    // only the FIRST E is Present; the rest (incl. other E's) are Absent.
    assert_eq!(Game::score(&w("abbey"), &w("eerie")), [Present, Absent, Absent, Absent, Absent]);
}

#[test]
fn win_and_letter_states() {
    let words = load_words();
    assert!(words.answers.len() > 2000);
    let mut g = Game::new(w("crane"));
    g.submit(w("crane"));
    assert_eq!(g.state, State::Won);
    assert_eq!(g.letter[(b'c' - b'a') as usize], Mark::Correct);
}

#[test]
fn pick_avoiding_skips_recent() {
    let words = load_words();
    // Exclude the first 200 answers; every draw must land outside that set.
    let recent: Vec<[u8; 5]> = words.answers.iter().take(200).copied().collect();
    for seed in 0..5000u64 {
        let got = words.pick_avoiding(seed, &recent);
        assert!(!recent.contains(&got), "returned an excluded word for seed {seed}");
    }
}

#[test]
fn pick_avoiding_falls_back_when_all_excluded() {
    let words = load_words();
    // Everything excluded -> must still return a valid answer (no infinite loop).
    let recent = words.answers.clone();
    let got = words.pick_avoiding(123, &recent);
    assert!(words.answers.contains(&got));
}

#[test]
fn pick_avoiding_takes_first_fresh_draw() {
    let words = load_words();
    let n = words.answers.len() as u64;
    let s1 = 7u64.wrapping_mul(6364136223846793005).wrapping_add(1442695040888963407);
    let first = words.answers[((s1 >> 33) % n) as usize];
    assert_eq!(words.pick_avoiding(7, &[]), first);
    // excluding the first draw moves on to the second
    let s2 = s1.wrapping_mul(6364136223846793005).wrapping_add(1442695040888963407);
    let second = words.answers[((s2 >> 33) % n) as usize];
    if second != first {
        assert_eq!(words.pick_avoiding(7, &[first]), second);
    }
}

#[test]
fn pick_is_seed_modulo_pool() {
    let words = load_words();
    assert_eq!(words.pick(0), words.answers[0]);
    assert_eq!(words.pick(words.answers.len() as u64 + 3), words.answers[3]);
}

#[test]
fn load_accepts_answers_and_valid_words() {
    let words = load_words();
    assert!(words.is_valid(&w("crane")));
    assert!(words.is_valid(&w("erase")));
    assert!(!words.is_valid(&w("zzzzq")) || words.answers.contains(&w("zzzzq")));
    assert_eq!(words.answers[0], w("crane"));
}

#[test]
fn parse_trims_and_skips_bad_lines() {
    let text = b"  crane \r\nHELLO\nab\n\nshort\t\nwords\nsp3ed\nabcdef\n\tlight";
    let got = parse(text);
    assert_eq!(got, vec![w("crane"), w("short"), w("words"), w("light")]);
    assert_eq!(parse(b""), Vec::<[u8; 5]>::new());
}

#[test]
fn score_single_present_and_absent() {
    assert_eq!(Game::score(&w("crane"), &w("nacre")), [Present, Present, Present, Present, Correct]);
    assert_eq!(Game::score(&w("crane"), &w("fizzy")), [Absent; 5]);
}

#[test]
fn submit_loses_after_six_misses() {
    let mut g = Game::new(w("crane"));
    for i in 0..6 {
        assert_eq!(g.state, State::Playing);
        g.submit(w("fizzy"));
        assert_eq!(g.filled_rows, i + 1);
    }
    assert_eq!(g.state, State::Lost);
    assert_eq!(g.letter[(b'f' - b'a') as usize], Mark::Absent);
    assert_eq!(g.letter[(b'c' - b'a') as usize], Mark::Empty);
    assert_eq!(g.rows[5], w("fizzy"));
}

#[test]
fn tracker_keeps_best_mark() {
    let mut g = Game::new(w("crane"));
    g.submit(w("nacre")); // n present, e green
    assert_eq!(g.letter[(b'n' - b'a') as usize], Mark::Present);
    g.submit(w("crone")); // n now green
    assert_eq!(g.letter[(b'n' - b'a') as usize], Mark::Correct);
    g.submit(w("snake")); // n present again: the tracker keeps green
    assert_eq!(g.letter[(b'n' - b'a') as usize], Mark::Correct);
    assert_eq!(g.marks[1], [Mark::Correct, Mark::Correct, Mark::Absent, Mark::Correct, Mark::Correct]);
}

#[test]
fn autocorrect_picks_single_toss_up() {
    let words = load_words();
    // "crano" is not a word; the last cell was a toss-up o/e.
    let eligible: [Vec<u8>; COLS] = [vec![], vec![], vec![], vec![], vec![b'o', b'e']];
    assert_eq!(correct_guess(&words, &w("crano"), &eligible), Some(w("crane")));
}

#[test]
fn autocorrect_rejects_without_eligible_swap() {
    let words = load_words();
    // an accepted word is returned as read
    let none: [Vec<u8>; COLS] = [vec![], vec![], vec![], vec![], vec![]];
    assert_eq!(correct_guess(&words, &w("crane"), &none), Some(w("crane")));
    // nothing eligible: rejected
    assert_eq!(correct_guess(&words, &w("swalx"), &none), None);
    // an eligible swap that does not make a word: rejected
    let eligible: [Vec<u8>; COLS] = [vec![], vec![b'n'], vec![], vec![], vec![]];
    assert_eq!(correct_guess(&words, &w("swalx"), &eligible), None);
}

#[test]
fn autocorrect_ambiguous_is_none() {
    let words = load_words();
    // "sxale": cell 1 could be 'n' (snale) or 'w' (swale); both are accepted words.
    let eligible: [Vec<u8>; COLS] = [vec![], vec![b'n', b'w'], vec![], vec![], vec![]];
    assert_eq!(correct_guess(&words, &w("sxale"), &eligible), None);
    // the same word reached twice still counts once
    let eligible: [Vec<u8>; COLS] = [vec![], vec![b'w', b'w'], vec![], vec![], vec![]];
    assert_eq!(correct_guess(&words, &w("sxale"), &eligible), Some(w("swale")));
    // uppercase and unchanged letters are never swapped in
    let eligible: [Vec<u8>; COLS] = [vec![], vec![b'W', b'x'], vec![], vec![], vec![]];
    assert_eq!(correct_guess(&words, &w("sxale"), &eligible), None);
}

/// The recognizer's near ties: per cell, the lowercase runner-up letters whose
/// confidence is at least 0.8 of the top pick's, other than the letter read.
fn near_ties(chosen: &[u8; 5], alts: &[Vec<(char, f32)>; COLS]) -> [Vec<u8>; COLS] {
    let mut out: [Vec<u8>; COLS] = Default::default();
    for pos in 0..COLS {
        let top = alts[pos].first().map(|&(_, p)| p).unwrap_or(0.0);
        for &(alt, conf) in &alts[pos] {
            let a = alt as u8;
            if a != chosen[pos] && a.is_ascii_lowercase() && conf >= 0.8 * top {
                out[pos].push(a);
            }
        }
    }
    out
}

fn words_without_snale() -> Words {
    let answers = answers_text();
    Words::load(answers.as_bytes(), b"erase\nbabes\neerie\n")
}

#[test]
fn autocorrect_single_sub() {
    let words = words_without_snale();
    // "crano" invalid; the last cell was a genuine toss-up o/e -> corrects to crane.
    let alts = [
        vec![('c', 0.9)],
        vec![('r', 0.9)],
        vec![('a', 0.9)],
        vec![('n', 0.9)],
        vec![('o', 0.5), ('e', 0.46)], // near-tie: 0.46 >= 0.8 * 0.5
    ];
    let chosen = w("crano");
    assert_eq!(correct_guess(&words, &chosen, &near_ties(&chosen, &alts)), Some(w("crane")));
}

#[test]
fn autocorrect_respects_confident_letter() {
    let words = words_without_snale();
    // "snale" invalid; 'w' is only a weak runner-up on a confident 'n' -> NO swap,
    // so it is rejected (None) instead of silently becoming "swale".
    let alts = [
        vec![('s', 0.95)],
        vec![('n', 0.93), ('w', 0.02)], // 'n' dominant, 'w' negligible
        vec![('a', 0.95)],
        vec![('l', 0.95)],
        vec![('e', 0.90)],
    ];
    let chosen = w("snale");
    assert_eq!(correct_guess(&words, &chosen, &near_ties(&chosen, &alts)), None);
}

#[test]
fn parse_trims_unicode_whitespace() {
    // no-break space, ideographic space, line separator, next line, en quad
    let text = "\u{a0}crane\u{3000}\n\u{2028}speed\u{85}\n\u{2000}abbey\u{202f}\n\u{200b}swale\n".as_bytes();
    assert_eq!(parse(text), vec![w("crane"), w("speed"), w("abbey")]);
    // a zero-width space is not whitespace, so that line is no word; neither is a lone lead byte
    assert_eq!(parse(&[0xC2, b'c', b'r', b'a', b'n', b'e']), Vec::<[u8; 5]>::new());
}
