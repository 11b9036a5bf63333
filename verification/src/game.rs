//! Wordle game logic: word lists, scoring and game state.
//! Words are `[u8; 5]` of lowercase ASCII.

use vstd::prelude::*;
use crate::text::{trim, trim_range};

verus! {

pub const ROWS: usize = 6;
pub const COLS: usize = 5;

#[derive(Clone, Copy, PartialEq, Eq, Structural, Debug)]
pub enum Mark {
    Empty,
    Absent,
    Present,
    Correct,
}

#[derive(Clone, Copy, PartialEq, Eq, Structural, Debug)]
pub enum State {
    Playing,
    Won,
    Lost,
}

/// How much a mark tells about a letter: Correct > Present > Absent > Empty.
pub open spec fn mark_rank(m: Mark) -> int {
    match m {
        Mark::Correct => 3,
        Mark::Present => 2,
        Mark::Absent => 1,
        Mark::Empty => 0,
    }
}

pub fn rank(m: Mark) -> (r: u8)
    ensures
        r == mark_rank(m),
{
    match m {
        Mark::Correct => 3,
        Mark::Present => 2,
        Mark::Absent => 1,
        Mark::Empty => 0,
    }
}

/// The better-informed of two marks (the first one on a tie).
pub open spec fn better_mark(a: Mark, b: Mark) -> Mark {
    if mark_rank(b) > mark_rank(a) { b } else { a }
}

pub fn best_mark(a: Mark, b: Mark) -> (m: Mark)
    ensures
        m == better_mark(a, b),
{
    if rank(b) > rank(a) {
        b
    } else {
        a
    }
}


/// A lowercase ASCII letter `a..=z`.
pub open spec fn is_lower(c: u8) -> bool {
    97 <= c <= 122
}

/// A five-letter word of lowercase ASCII letters.
pub open spec fn is_word(w: Seq<u8>) -> bool {
    &&& w.len() == COLS
    &&& forall|i: int| 0 <= i < COLS ==> #[trigger] is_lower(w[i])
}

/// Number of positions `j < n` where `w[j] == c`.
pub open spec fn count_upto(w: Seq<u8>, c: u8, n: int) -> nat
    decreases n,
{
    if n <= 0 {
        0
    } else {
        count_upto(w, c, n - 1) + if w[n - 1] == c { 1nat } else { 0nat }
    }
}

/// Number of times `c` occurs in the five letters of `w`.
pub open spec fn count_letter(w: Seq<u8>, c: u8) -> nat {
    count_upto(w, c, COLS as int)
}

/// Number of positions `j < n` that are green (guess letter equals answer letter) for `c`.
pub open spec fn greens_upto(a: Seq<u8>, g: Seq<u8>, c: u8, n: int) -> nat
    decreases n,
{
    if n <= 0 {
        0
    } else {
        greens_upto(a, g, c, n - 1) + if g[n - 1] == c && a[n - 1] == c { 1nat } else { 0nat }
    }
}

/// Occurrences of `c` in the answer at positions `j < n` that the guess did not hit.
pub open spec fn spare_upto(a: Seq<u8>, g: Seq<u8>, c: u8, n: int) -> nat
    decreases n,
{
    if n <= 0 {
        0
    } else {
        spare_upto(a, g, c, n - 1) + if a[n - 1] == c && g[n - 1] != a[n - 1] { 1nat } else { 0nat }
    }
}

/// Guess positions `j < n` holding `c` that are not green.
pub open spec fn misses_upto(a: Seq<u8>, g: Seq<u8>, c: u8, n: int) -> nat
    decreases n,
{
    if n <= 0 {
        0
    } else {
        misses_upto(a, g, c, n - 1) + if g[n - 1] == c && g[n - 1] != a[n - 1] { 1nat } else { 0nat }
    }
}

/// The mark of guess position `i` against `answer`: green where the letters
/// agree; otherwise yellow while the answer still holds an unmatched copy of
/// the letter (unmatched copies go to the leftmost non-green guesses first);
/// otherwise gray.
pub open spec fn mark_at(a: Seq<u8>, g: Seq<u8>, i: int) -> Mark {
    if g[i] == a[i] {
        Mark::Correct
    } else if misses_upto(a, g, g[i], i) < spare_upto(a, g, g[i], COLS as int) {
        Mark::Present
    } else {
        Mark::Absent
    }
}

/// The five marks of a guess.
pub open spec fn score_spec(a: Seq<u8>, g: Seq<u8>) -> Seq<Mark> {
    Seq::new(COLS as nat, |i: int| mark_at(a, g, i))
}

/// The tracker entry for letter `c` after folding the marks of guess
/// positions `j < n` that hold `c` into `start` with `better_mark`.
pub open spec fn tracked_mark(start: Mark, g: Seq<u8>, m: Seq<Mark>, c: u8, n: int) -> Mark
    decreases n,
{
    if n <= 0 {
        start
    } else {
        let prev = tracked_mark(start, g, m, c, n - 1);
        if g[n - 1] == c { better_mark(prev, m[n - 1]) } else { prev }
    }
}

/// True when every mark of the row is green.
pub open spec fn all_correct(m: Seq<Mark>) -> bool {
    forall|i: int| 0 <= i < m.len() ==> #[trigger] m[i] == Mark::Correct
}

/// Guess positions `j < n` holding `c` that scored green or yellow.
pub open spec fn credited_upto(a: Seq<u8>, g: Seq<u8>, c: u8, n: int) -> nat
    decreases n,
{
    if n <= 0 {
        0
    } else {
        credited_upto(a, g, c, n - 1) + if g[n - 1] == c && (mark_at(a, g, n - 1) == Mark::Correct
            || mark_at(a, g, n - 1) == Mark::Present) { 1nat } else { 0nat }
    }
}

/// Index of a lowercase letter in `a..=z`.
pub open spec fn letter_index(c: u8) -> int {
    c - 97
}

} // verus!

verus! {

proof fn lemma_spare_is_count_minus_greens(a: Seq<u8>, g: Seq<u8>, c: u8, n: int)
    requires
        0 <= n,
    ensures
        count_upto(a, c, n) == greens_upto(a, g, c, n) + spare_upto(a, g, c, n),
    decreases n,
{
    if n > 0 {
        lemma_spare_is_count_minus_greens(a, g, c, n - 1);
    }
}

proof fn lemma_count_upto_bound(w: Seq<u8>, c: u8, n: int)
    requires
        0 <= n,
    ensures
        count_upto(w, c, n) <= n,
    decreases n,
{
    if n > 0 {
        lemma_count_upto_bound(w, c, n - 1);
    }
}

proof fn lemma_greens_monotone(a: Seq<u8>, g: Seq<u8>, c: u8, m: int, n: int)
    requires
        0 <= m <= n,
    ensures
        greens_upto(a, g, c, m) <= greens_upto(a, g, c, n),
    decreases n,
{
    if m < n {
        lemma_greens_monotone(a, g, c, m, n - 1);
    }
}

pub struct Game {
    pub answer: [u8; 5],
    pub rows: [[u8; 5]; ROWS],
    pub marks: [[Mark; COLS]; ROWS],
    /// Number of submitted guesses.
    pub filled_rows: usize,
    pub state: State,
    /// Best-known mark per letter `a..=z`, for the tracker.
    pub letter: [Mark; 26],
}

/// True when every mark of the row is green.
pub fn row_all_correct(m: &[Mark; COLS]) -> (r: bool)
    ensures
        r == all_correct(m@),
{
    let mut i: usize = 0;
    while i < COLS
        invariant
            i <= COLS,
            forall|k: int| 0 <= k < i ==> #[trigger] m@[k] == Mark::Correct,
        decreases COLS - i,
    {
        if m[i] != Mark::Correct {
            return false;
        }
        i += 1;
    }
    true
}

/// `g1` is `g0` after the guess `guess`: the guess fills the next row and is
/// scored against the answer, each letter's tracker keeps its best mark, and
/// the game is won on five greens, lost after the last row, else unchanged.
pub open spec fn after_guess(g0: Game, g1: Game, guess: [u8; 5]) -> bool {
    let m = score_spec(g0.answer@, guess@);
    &&& g1.answer == g0.answer
    &&& g1.filled_rows == g0.filled_rows + 1
    &&& g1.rows@ == g0.rows@.update(g0.filled_rows as int, guess)
    &&& g1.marks@.len() == ROWS
    &&& g1.marks[g0.filled_rows as int]@ == m
    &&& forall|r: int| 0 <= r < ROWS && r != g0.filled_rows ==> #[trigger] g1.marks[r] == g0.marks[r]
    &&& forall|k: int| 0 <= k < 26 ==> #[trigger] g1.letter[k] == tracked_mark(g0.letter[k], guess@, m, (k + 97) as u8,
        COLS as int)
    &&& g1.state == (if all_correct(m) {
        State::Won
    } else if g0.filled_rows + 1 >= ROWS {
        State::Lost
    } else {
        g0.state
    })
}

impl Game {
    /// A game is well formed when its answer is a word, at most `ROWS` guesses
    /// were submitted, and a game still in play has a free row.
    pub open spec fn wf(&self) -> bool {
        &&& is_word(self.answer@)
        &&& self.filled_rows <= ROWS
        &&& self.state == State::Playing ==> self.filled_rows < ROWS
    }

    /// A fresh game: empty board, nothing known about any letter.
    pub fn new(answer: [u8; 5]) -> (g: Self)
        ensures
            g.answer == answer,
            g.filled_rows == 0,
            g.state == State::Playing,
            forall|r: int, c: int| 0 <= r < ROWS && 0 <= c < COLS ==> #[trigger] g.rows[r][c] == 0u8,
            forall|r: int, c: int| 0 <= r < ROWS && 0 <= c < COLS ==> #[trigger] g.marks[r][c] == Mark::Empty,
            forall|k: int| 0 <= k < 26 ==> #[trigger] g.letter[k] == Mark::Empty,
            is_word(answer@) ==> g.wf(),
    {
        Game {
            answer,
            rows: [[0u8; 5]; ROWS],
            marks: [[Mark::Empty; COLS]; ROWS],
            filled_rows: 0,
            state: State::Playing,
            letter: [Mark::Empty; 26],
        }
    }

    /// The classic two-pass green/yellow/gray scoring with correct duplicate-letter
    /// handling: greens first (consuming answer letters), then yellows from what is
    /// left, else gray.
    pub fn score(answer: &[u8; 5], guess: &[u8; 5]) -> (marks: [Mark; COLS])
        requires
            is_word(answer@),
            is_word(guess@),
        ensures
            marks@ == score_spec(answer@, guess@),
    {
        let ghost a = answer@;
        let ghost g = guess@;
        let mut marks = [Mark::Absent; COLS];
        let mut counts = [0i32; 26];
        let mut j: usize = 0;
        while j < COLS
            invariant
                j <= COLS,
                a == answer@,
                is_word(a),
                forall|k: int| 0 <= k < 26 ==> #[trigger] counts[k] == count_upto(a, (k + 97) as u8, j as int),
            decreases COLS - j,
        {
            let c = answer[j];
            assert(is_lower(a[j as int]));
            proof {
                lemma_count_upto_bound(a, c, j as int);
            }
            let idx = (c - 97u8) as usize;
            assert(((idx as int) + 97) as u8 == c);
            counts[idx] = counts[idx] + 1;
            j += 1;
        }
        let mut i: usize = 0;
        while i < COLS
            invariant
                i <= COLS,
                a == answer@,
                g == guess@,
                is_word(a),
                is_word(g),
                forall|k: int| 0 <= k < 26 ==> #[trigger] counts[k] == count_upto(a, (k + 97) as u8, COLS as int)
                    - greens_upto(a, g, (k + 97) as u8, i as int),
                forall|k: int| 0 <= k < i ==> #[trigger] marks[k] == (if g[k] == a[k] { Mark::Correct } else { Mark::Absent }),
                forall|k: int| i <= k < COLS ==> #[trigger] marks[k] == Mark::Absent,
            decreases COLS - i,
        {
            if guess[i] == answer[i] {
                marks[i] = Mark::Correct;
                assert(is_lower(g[i as int]));
                let idx = (guess[i] - 97u8) as usize;
                assert(((idx as int) + 97) as u8 == guess[i as int]);
                proof {
                    lemma_spare_is_count_minus_greens(a, g, guess[i as int], COLS as int);
                    lemma_greens_monotone(a, g, guess[i as int], i as int + 1, COLS as int);
                }
                counts[idx] = counts[idx] - 1;
            }
            i += 1;
        }
        assert forall|k: int| 0 <= k < 26 implies #[trigger] counts[k] == spare_upto(a, g, (k + 97) as u8, COLS as int)
            - vstd::math::min(misses_upto(a, g, (k + 97) as u8, 0) as int,
                spare_upto(a, g, (k + 97) as u8, COLS as int) as int) by {
            lemma_spare_is_count_minus_greens(a, g, (k + 97) as u8, COLS as int);
        }
        let mut i: usize = 0;
        while i < COLS
            invariant
                i <= COLS,
                a == answer@,
                g == guess@,
                is_word(a),
                is_word(g),
                forall|k: int| 0 <= k < 26 ==> #[trigger] counts[k] == spare_upto(a, g, (k + 97) as u8, COLS as int)
                    - vstd::math::min(misses_upto(a, g, (k + 97) as u8, i as int) as int,
                        spare_upto(a, g, (k + 97) as u8, COLS as int) as int),
                forall|k: int| 0 <= k < i ==> #[trigger] marks[k] == mark_at(a, g, k),
                forall|k: int| i <= k < COLS ==> #[trigger] marks[k] == (if g[k] == a[k] { Mark::Correct } else { Mark::Absent }),
            decreases COLS - i,
        {
            if marks[i] != Mark::Correct {
                assert(is_lower(g[i as int]));
                let idx = (guess[i] - 97u8) as usize;
                assert(((idx as int) + 97) as u8 == guess[i as int]);
                if counts[idx] > 0 {
                    marks[i] = Mark::Present;
                    counts[idx] = counts[idx] - 1;
                }
            }
            i += 1;
        }
        assert(marks@ =~= score_spec(a, g));
        marks
    }

    /// Record a (pre-validated) guess: score it, update the per-letter tracker,
    /// advance to the next row, and set won / lost.
    pub fn submit(&mut self, guess: [u8; 5])
        requires
            old(self).filled_rows < ROWS,
            is_word(old(self).answer@),
            is_word(guess@),
        ensures
            after_guess(*old(self), *final(self), guess),
            guess@ == old(self).answer@ ==> final(self).state == State::Won,
            forall|k: int| 0 <= k < 26 ==> mark_rank(#[trigger] final(self).letter[k]) >= mark_rank(old(self).letter[k]),
            old(self).wf() ==> final(self).wf(),
    {
        let r = self.filled_rows;
        let m = Game::score(&self.answer, &guess);
        self.rows[r] = guess;
        self.marks[r] = m;
        let ghost g = guess@;
        let ghost ms = m@;
        let ghost start = self.letter;
        let ghost rows_now = self.rows;
        let ghost marks_now = self.marks;
        let mut i: usize = 0;
        while i < COLS
            invariant
                i <= COLS,
                self.answer == old(self).answer,
                self.filled_rows == r,
                r < ROWS,
                self.rows == rows_now,
                self.marks == marks_now,
                self.state == old(self).state,
                g == guess@,
                is_word(g),
                ms == m@,
                forall|k: int| 0 <= k < 26 ==> #[trigger] self.letter[k] == tracked_mark(start[k], g, ms, (k + 97) as u8, i as int),
                forall|k: int| 0 <= k < 26 ==> mark_rank(#[trigger] self.letter[k]) >= mark_rank(start[k]),
            decreases COLS - i,
        {
            assert(is_lower(g[i as int]));
            let li = (guess[i] - 97u8) as usize;
            assert(((li as int) + 97) as u8 == guess[i as int]);
            self.letter[li] = best_mark(self.letter[li], m[i]);
            assert forall|k: int| 0 <= k < 26 implies #[trigger] self.letter[k] == tracked_mark(
                start[k], g, ms, (k + 97) as u8, i as int + 1) by {
                if k != li as int {
                    assert(((k + 97) as u8) != guess[i as int]);
                }
            }
            i += 1;
        }
        self.filled_rows += 1;
        if row_all_correct(&m) {
            self.state = State::Won;
        } else if self.filled_rows >= ROWS {
            self.state = State::Lost;
        }
        proof {
            lemma_all_correct_iff_answer(old(self).answer@, guess@);
        }
    }
}

} // verus!

verus! {

proof fn lemma_guess_count_split(a: Seq<u8>, g: Seq<u8>, c: u8, n: int)
    requires
        0 <= n,
    ensures
        count_upto(g, c, n) == greens_upto(a, g, c, n) + misses_upto(a, g, c, n),
    decreases n,
{
    if n > 0 {
        lemma_guess_count_split(a, g, c, n - 1);
    }
}

proof fn lemma_credited_prefix(a: Seq<u8>, g: Seq<u8>, c: u8, n: int)
    requires
        0 <= n <= COLS,
    ensures
        credited_upto(a, g, c, n) == greens_upto(a, g, c, n) + vstd::math::min(
            misses_upto(a, g, c, n) as int,
            spare_upto(a, g, c, COLS as int) as int,
        ),
    decreases n,
{
    if n > 0 {
        lemma_credited_prefix(a, g, c, n - 1);
    }
}

/// Duplicate letters are scored fairly: for every letter `c`, the number of
/// guess positions holding `c` that score green or yellow is the smaller of
/// how often `c` occurs in the guess and how often it occurs in the answer.
pub proof fn lemma_score_credits_each_letter(answer: Seq<u8>, guess: Seq<u8>, c: u8)
    requires
        is_word(answer),
        is_word(guess),
    ensures
        credited_upto(answer, guess, c, COLS as int) == vstd::math::min(
            count_letter(guess, c) as int,
            count_letter(answer, c) as int,
        ),
{
    lemma_credited_prefix(answer, guess, c, COLS as int);
    lemma_guess_count_split(answer, guess, c, COLS as int);
    lemma_spare_is_count_minus_greens(answer, guess, c, COLS as int);
}

/// A row is all green exactly when the guess is the answer.
pub proof fn lemma_all_correct_iff_answer(answer: Seq<u8>, guess: Seq<u8>)
    requires
        is_word(answer),
        is_word(guess),
    ensures
        all_correct(score_spec(answer, guess)) <==> guess == answer,
{
    if all_correct(score_spec(answer, guess)) {
        assert forall|i: int| 0 <= i < COLS implies guess[i] == answer[i] by {
            assert(score_spec(answer, guess)[i] == Mark::Correct);
        }
        assert(guess =~= answer);
    }
}

/// Guessing the answer wins on any row, the last one included; a guess that
/// is not the answer never wins, and only such a guess on the last row loses
/// a game in play; otherwise play goes on.
pub proof fn lemma_guess_decides_state(g0: Game, g1: Game, guess: [u8; 5])
    requires
        is_word(g0.answer@),
        is_word(guess@),
        g0.filled_rows < ROWS,
        g0.state == State::Playing,
        after_guess(g0, g1, guess),
    ensures
        guess@ == g0.answer@ ==> g1.state == State::Won,
        guess@ != g0.answer@ && g0.filled_rows + 1 == ROWS ==> g1.state == State::Lost,
        guess@ != g0.answer@ && g0.filled_rows + 1 < ROWS ==> g1.state == State::Playing,
{
    lemma_all_correct_iff_answer(g0.answer@, guess@);
}

/// The tracker never forgets: after folding a row in, the entry for `c` is at
/// least as informative as its previous value and as every mark the row gave `c`,
/// and it is one of those marks.
pub proof fn lemma_tracker_keeps_best(start: Mark, g: Seq<u8>, m: Seq<Mark>, c: u8, n: int)
    requires
        0 <= n <= g.len(),
        n <= m.len(),
    ensures
        mark_rank(tracked_mark(start, g, m, c, n)) >= mark_rank(start),
        forall|i: int| 0 <= i < n && g[i] == c ==> mark_rank(tracked_mark(start, g, m, c, n)) >= mark_rank(
            #[trigger] m[i]),
        tracked_mark(start, g, m, c, n) == start || exists|i: int|
            0 <= i < n && g[i] == c && tracked_mark(start, g, m, c, n) == #[trigger] m[i],
    decreases n,
{
    if n > 0 {
        lemma_tracker_keeps_best(start, g, m, c, n - 1);
        let prev = tracked_mark(start, g, m, c, n - 1);
        if g[n - 1] == c && mark_rank(m[n - 1]) > mark_rank(prev) {
            assert(tracked_mark(start, g, m, c, n) == m[n - 1]);
        }
    }
}

} // verus!

verus! {

/// What one line of a word list contributes: its trimmed text when that is a word.
pub open spec fn word_of_line(l: Seq<u8>) -> Seq<Seq<u8>> {
    if is_word(trim(l)) {
        seq![trim(l)]
    } else {
        seq![]
    }
}

/// The words of the lines of `s` from the line starting at `start`, where the
/// bytes `s[start..i]` hold no line feed.
pub open spec fn scan_words(s: Seq<u8>, start: int, i: int) -> Seq<Seq<u8>>
    decreases s.len() - i,
{
    if i >= s.len() {
        word_of_line(s.subrange(start, s.len() as int))
    } else if s[i] == 10 {
        word_of_line(s.subrange(start, i)) + scan_words(s, i + 1, i + 1)
    } else {
        scan_words(s, start, i + 1)
    }
}

/// The words of a word list: one per line, surrounding whitespace ignored,
/// lines that are not five lowercase letters skipped.
pub open spec fn parse_spec(s: Seq<u8>) -> Seq<Seq<u8>> {
    scan_words(s, 0, 0)
}

proof fn lemma_line_word_is_word(l: Seq<u8>)
    ensures
        forall|k: int| 0 <= k < word_of_line(l).len() ==> is_word(#[trigger] word_of_line(l)[k]),
{
    if is_word(trim(l)) {
        assert(word_of_line(l) =~= seq![trim(l)]);
        assert(word_of_line(l)[0] == trim(l));
    } else {
        assert(word_of_line(l).len() == 0);
    }
}

/// Every word a scan yields is five lowercase letters.
proof fn lemma_scan_words_are_words(s: Seq<u8>, start: int, i: int)
    requires
        0 <= start <= i <= s.len(),
    ensures
        forall|k: int| 0 <= k < scan_words(s, start, i).len() ==> is_word(#[trigger] scan_words(s, start, i)[k]),
    decreases s.len() - i,
{
    if i >= s.len() {
        lemma_line_word_is_word(s.subrange(start, s.len() as int));
        assert(scan_words(s, start, i) == word_of_line(s.subrange(start, s.len() as int)));
    } else if s[i] == 10 {
        lemma_scan_words_are_words(s, i + 1, i + 1);
        lemma_line_word_is_word(s.subrange(start, i));
        let a = word_of_line(s.subrange(start, i));
        let b = scan_words(s, i + 1, i + 1);
        assert(scan_words(s, start, i) == a + b);
        assert forall|k: int| 0 <= k < (a + b).len() implies is_word(#[trigger] (a + b)[k]) by {
            if k >= a.len() {
                assert((a + b)[k] == b[k - a.len()]);
            } else {
                assert((a + b)[k] == a[k]);
            }
        }
    } else {
        lemma_scan_words_are_words(s, start, i + 1);
        assert(scan_words(s, start, i) == scan_words(s, start, i + 1));
    }
}

/// Every word of a parsed word list is five lowercase letters.
pub proof fn lemma_parsed_are_words(s: Seq<u8>)
    ensures
        forall|k: int| 0 <= k < parse_spec(s).len() ==> is_word(#[trigger] parse_spec(s)[k]),
{
    lemma_scan_words_are_words(s, 0, 0);
}

/// The words held by a vector of five-letter arrays.
pub open spec fn words_view(v: Seq<[u8; 5]>) -> Seq<Seq<u8>> {
    v.map_values(|w: [u8; 5]| w@)
}

/// If `s[start..end]` trims to a word, append it to `out`.
fn push_if_word(s: &[u8], start: usize, end: usize, out: &mut Vec<[u8; 5]>)
    requires
        start <= end <= s@.len(),
    ensures
        words_view(final(out)@) == words_view(old(out)@) + word_of_line(s@.subrange(start as int, end as int)),
{
    let (lo, hi) = trim_range(s, start, end);
    let ghost t = s@.subrange(lo as int, hi as int);
    if hi - lo == 5 {
        let mut ok = true;
        let mut k: usize = lo;
        while k < hi
            invariant
                lo <= k <= hi,
                hi == lo + 5,
                hi <= s@.len(),
                ok == (forall|j: int| lo <= j < k ==> is_lower(#[trigger] s@[j])),
            decreases hi - k,
        {
            if !(97u8 <= s[k] && s[k] <= 122u8) {
                ok = false;
            }
            k += 1;
        }
        if ok {
            let w: [u8; 5] = [s[lo], s[lo + 1], s[lo + 2], s[lo + 3], s[lo + 4]];
            assert(w@ =~= t);
            assert(is_word(t)) by {
                assert forall|i: int| 0 <= i < COLS implies #[trigger] is_lower(t[i]) by {
                    assert(is_lower(s@[lo + i]));
                }
            }
            out.push(w);
            assert(words_view(out@) =~= words_view(old(out)@) + seq![t]);
        } else {
            assert(!is_word(t)) by {
                let j = choose|j: int| lo <= j < hi && !is_lower(#[trigger] s@[j]);
                assert(!is_lower(t[j - lo]));
            }
            assert(words_view(out@) =~= words_view(old(out)@) + seq![]);
        }
    } else {
        assert(words_view(out@) =~= words_view(old(out)@) + seq![]);
    }
}

/// Parse a word list: one word per line, five lowercase ASCII letters after trimming.
pub fn parse(s: &[u8]) -> (words: Vec<[u8; 5]>)
    ensures
        words_view(words@) == parse_spec(s@),
{
    let mut out: Vec<[u8; 5]> = Vec::new();
    let mut start: usize = 0;
    let mut i: usize = 0;
    while i < s.len()
        invariant
            start <= i <= s@.len(),
            words_view(out@) + scan_words(s@, start as int, i as int) == parse_spec(s@),
        decreases s@.len() - i,
    {
        if s[i] == 10u8 {
            let ghost before = words_view(out@);
            push_if_word(s, start, i, &mut out);
            assert(before + scan_words(s@, start as int, i as int) == words_view(out@) + scan_words(
                s@, i as int + 1, i as int + 1)) by {
                vstd::seq_lib::lemma_concat_associative(before, word_of_line(s@.subrange(start as int, i as int)),
                    scan_words(s@, i as int + 1, i as int + 1));
            }
            start = i + 1;
        }
        i += 1;
    }
    let ghost before = words_view(out@);
    push_if_word(s, start, s.len(), &mut out);
    assert(words_view(out@) =~= parse_spec(s@));
    out
}

} // verus!

verus! {

/// A five-byte word packed into an integer, first letter in the low byte.
pub open spec fn word_code(w: Seq<u8>) -> u64 {
    (w[0] + 256 * w[1] + 65536 * w[2] + 16777216 * w[3] + 4294967296 * w[4]) as u64
}

/// Two byte digits in base 256 with equal values are equal digit by digit.
proof fn lemma_base256_digit(lo_a: int, lo_b: int, hi_a: int, hi_b: int, unit: int)
    requires
        unit > 0,
        0 <= lo_a < unit,
        0 <= lo_b < unit,
        lo_a + unit * hi_a == lo_b + unit * hi_b,
    ensures
        hi_a == hi_b,
        lo_a == lo_b,
{
    assert(unit * (hi_a - hi_b) == lo_b - lo_a) by (nonlinear_arith)
        requires
            lo_a + unit * hi_a == lo_b + unit * hi_b,
    ;
    if hi_a > hi_b {
        assert(unit * (hi_a - hi_b) >= unit) by (nonlinear_arith)
            requires
                unit > 0,
                hi_a - hi_b >= 1,
        ;
    } else if hi_a < hi_b {
        assert(unit * (hi_b - hi_a) >= unit) by (nonlinear_arith)
            requires
                unit > 0,
                hi_b - hi_a >= 1,
        ;
        assert(unit * (hi_a - hi_b) == -(unit * (hi_b - hi_a))) by (nonlinear_arith);
    }
}

/// Distinct five-byte words have distinct codes.
#[verifier::spinoff_prover]
pub proof fn lemma_word_code_injective(a: Seq<u8>, b: Seq<u8>)
    requires
        a.len() == COLS,
        b.len() == COLS,
        word_code(a) == word_code(b),
    ensures
        a == b,
{
    let la = a[0] + 256 * a[1] + 65536 * a[2] + 16777216 * a[3];
    let lb = b[0] + 256 * b[1] + 65536 * b[2] + 16777216 * b[3];
    assert(la + 4294967296 * a[4] == lb + 4294967296 * b[4]);
    lemma_base256_digit(la, lb, a[4] as int, b[4] as int, 4294967296);
    let ma = a[0] + 256 * a[1] + 65536 * a[2];
    let mb = b[0] + 256 * b[1] + 65536 * b[2];
    lemma_base256_digit(ma, mb, a[3] as int, b[3] as int, 16777216);
    let na = a[0] + 256 * a[1];
    let nb = b[0] + 256 * b[1];
    lemma_base256_digit(na, nb, a[2] as int, b[2] as int, 65536);
    lemma_base256_digit(a[0] as int, b[0] as int, a[1] as int, b[1] as int, 256);
    assert(a =~= b);
}

pub fn code_of(w: &[u8; 5]) -> (c: u64)
    ensures
        c == word_code(w@),
{
    (w[0] as u64) + 256 * (w[1] as u64) + 65536 * (w[2] as u64) + 16777216 * (w[3] as u64) + 4294967296 * (
    w[4] as u64)
}

} // verus!

verus! {

broadcast use vstd::std_specs::hash::group_hash_axioms;

/// One step of the answer picker's linear congruential generator.
#[verifier::opaque]
pub open spec fn lcg_next(s: u64) -> u64 {
    vstd::wrapping::u64_specs::wrapping_add(
        vstd::wrapping::u64_specs::wrapping_mul(s, 6364136223846793005u64),
        1442695040888963407u64,
    )
}

/// The answer drawn from `seed` by a plain pick.
pub open spec fn pick_spec(answers: Seq<Seq<u8>>, seed: u64) -> Seq<u8> {
    answers[((seed as usize) as int) % (answers.len() as int)]
}

/// The answer drawn by one generator step from `seed`.
pub open spec fn draw_spec(answers: Seq<Seq<u8>>, seed: u64) -> Seq<u8> {
    answers[(((lcg_next(seed) >> 33u64) as usize) as int) % (answers.len() as int)]
}

/// Up to `tries` generator draws, each rejected while it is in `recent`; when
/// every draw was rejected, a plain pick from the final seed.
pub open spec fn avoid_spec(answers: Seq<Seq<u8>>, recent: Seq<Seq<u8>>, seed: u64, tries: nat) -> Seq<u8>
    decreases tries,
{
    if tries == 0 {
        pick_spec(answers, seed)
    } else if !recent.contains(draw_spec(answers, seed)) {
        draw_spec(answers, seed)
    } else {
        avoid_spec(answers, recent, lcg_next(seed), (tries - 1) as nat)
    }
}

/// The number of generator draws before the fallback pick.
pub const PICK_TRIES: usize = 64;

/// One generator step.
pub fn lcg_step(s: u64) -> (r: u64)
    ensures
        r == lcg_next(s),
{
    proof {
        reveal(lcg_next);
    }
    s.wrapping_mul(6364136223846793005u64).wrapping_add(1442695040888963407u64)
}

/// True when `list` holds `w`.
pub fn contains_word(list: &[[u8; 5]], w: &[u8; 5]) -> (r: bool)
    ensures
        r == words_view(list@).contains(w@),
{
    let mut i: usize = 0;
    while i < list.len()
        invariant
            i <= list@.len(),
            forall|j: int| 0 <= j < i ==> #[trigger] list@[j]@ != w@,
        decreases list@.len() - i,
    {
        let v = &list[i];
        if v[0] == w[0] && v[1] == w[1] && v[2] == w[2] && v[3] == w[3] && v[4] == w[4] {
            assert(words_view(list@)[i as int] =~= w@);
            return true;
        }
        assert(list@[i as int]@ != w@) by {
            if list@[i as int]@ == w@ {
                assert(list@[i as int]@[0] == w@[0]);
            }
        }
        i += 1;
    }
    assert forall|j: int| 0 <= j < words_view(list@).len() implies #[trigger] words_view(list@)[j] != w@ by {
        assert(list@[j]@ != w@);
    }
    false
}

/// The dictionaries: the curated answer pool and the full accepted-guess set,
/// kept as the codes (`word_code`) of the accepted words.
pub struct Words {
    pub answers: Vec<[u8; 5]>,
    pub valid: std::collections::HashSet<u64>,
}

impl Words {
    /// True when `w` is an accepted guess.
    pub open spec fn accepts(&self, w: Seq<u8>) -> bool {
        self.valid@.contains(word_code(w))
    }

    /// The answers as words.
    pub open spec fn answer_words(&self) -> Seq<Seq<u8>> {
        words_view(self.answers@)
    }

    /// Every answer and every accepted guess is five lowercase letters.
    pub open spec fn wf(&self) -> bool {
        &&& forall|i: int| 0 <= i < self.answers@.len() ==> is_word(#[trigger] self.answers@[i]@)
        &&& forall|w: Seq<u8>| w.len() == COLS && #[trigger] self.accepts(w) ==> is_word(w)
    }

    /// Build the dictionaries from the answer list and the list of other
    /// accepted guesses (one word per line). Every answer is also accepted.
    pub fn load(answers_txt: &[u8], valid_txt: &[u8]) -> (words: Words)
        ensures
            words.answer_words() == parse_spec(answers_txt@),
            forall|w: Seq<u8>| w.len() == COLS ==> (#[trigger] words.accepts(w) <==> (parse_spec(
                valid_txt@,
            ).contains(w) || parse_spec(answers_txt@).contains(w))),
            words.wf(),
    {
        let answers = parse(answers_txt);
        let others = parse(valid_txt);
        let mut valid: std::collections::HashSet<u64> = std::collections::HashSet::new();
        let mut i: usize = 0;
        while i < others.len()
            invariant
                i <= others@.len(),
                forall|x: u64| #[trigger] valid@.contains(x) <==> exists|j: int| 0 <= j < i && word_code(others@[j]@) == x,
            decreases others@.len() - i,
        {
            let c = code_of(&others[i]);
            valid.insert(c);
            assert forall|x: u64| #[trigger] valid@.contains(x) implies exists|j: int|
                0 <= j < i + 1 && word_code(others@[j]@) == x by {
                if x == c {
                    assert(word_code(others@[i as int]@) == x);
                }
            }
            i += 1;
        }
        let mut i: usize = 0;
        while i < answers.len()
            invariant
                i <= answers@.len(),
                forall|x: u64| #[trigger] valid@.contains(x) <==> (exists|j: int| 0 <= j < others@.len() && word_code(others@[j]@) == x)
                    || (exists|j: int| 0 <= j < i && word_code(answers@[j]@) == x),
            decreases answers@.len() - i,
        {
            let c = code_of(&answers[i]);
            valid.insert(c);
            assert forall|x: u64| #[trigger] valid@.contains(x) implies (exists|j: int| 0 <= j < others@.len() && word_code(others@[j]@) == x)
                    || (exists|j: int| 0 <= j < i + 1 && word_code(answers@[j]@) == x) by {
                if x == c {
                    assert(word_code(answers@[i as int]@) == x);
                }
            }
            i += 1;
        }
        let words = Words { answers, valid };
        assert forall|w: Seq<u8>| w.len() == COLS implies (#[trigger] words.accepts(w) <==> (words_view(others@).contains(w)
            || words_view(answers@).contains(w))) by {
            if words.accepts(w) {
                if exists|j: int| 0 <= j < others@.len() && word_code(others@[j]@) == word_code(w) {
                    let j = choose|j: int| 0 <= j < others@.len() && word_code(others@[j]@) == word_code(w);
                    lemma_word_code_injective(others@[j]@, w);
                    assert(words_view(others@)[j] == w);
                } else {
                    let j = choose|j: int| 0 <= j < answers@.len() && word_code(answers@[j]@) == word_code(w);
                    lemma_word_code_injective(answers@[j]@, w);
                    assert(words_view(answers@)[j] == w);
                }
            }
            if words_view(others@).contains(w) {
                let j = choose|j: int| 0 <= j < words_view(others@).len() && words_view(others@)[j] == w;
                assert(word_code(others@[j]@) == word_code(w));
            }
            if words_view(answers@).contains(w) {
                let j = choose|j: int| 0 <= j < words_view(answers@).len() && words_view(answers@)[j] == w;
                assert(word_code(answers@[j]@) == word_code(w));
            }
        }
        proof {
            lemma_parsed_are_words(answers_txt@);
            lemma_parsed_are_words(valid_txt@);
            assert forall|i: int| 0 <= i < words.answers@.len() implies is_word(#[trigger] words.answers@[i]@) by {
                assert(words_view(answers@)[i] == answers@[i]@);
            }
            assert forall|w: Seq<u8>| w.len() == COLS && #[trigger] words.accepts(w) implies is_word(w) by {
                if words_view(others@).contains(w) {
                    let j = choose|j: int| 0 <= j < words_view(others@).len() && words_view(others@)[j] == w;
                    assert(parse_spec(valid_txt@)[j] == w);
                } else {
                    let j = choose|j: int| 0 <= j < words_view(answers@).len() && words_view(answers@)[j] == w;
                    assert(parse_spec(answers_txt@)[j] == w);
                }
            }
        }
        words
    }

    /// True when `w` is an accepted guess.
    pub fn is_valid(&self, w: &[u8; 5]) -> (r: bool)
        ensures
            r == self.accepts(w@),
    {
        self.valid.contains(&code_of(w))
    }

    /// The answer at `seed` modulo the pool size.
    pub fn pick(&self, seed: u64) -> (w: [u8; 5])
        requires
            self.answers@.len() > 0,
        ensures
            w@ == pick_spec(self.answer_words(), seed),
            self.answer_words().contains(w@),
    {
        let i = (seed as usize) % self.answers.len();
        let w = self.answers[i];
        assert(self.answer_words()[i as int] == w@);
        w
    }

    /// Pick an answer avoiding any word in `recent`. Draws from a fast LCG so
    /// the choice stays effectively uniform; falls back to an unfiltered pick if
    /// every draw is excluded, so this never loops forever.
    pub fn pick_avoiding(&self, seed: u64, recent: &[[u8; 5]]) -> (w: [u8; 5])
        requires
            self.answers@.len() > 0,
        ensures
            w@ == avoid_spec(self.answer_words(), words_view(recent@), seed, PICK_TRIES as nat),
            self.answer_words().contains(w@),
    {
        let n = self.answers.len();
        let mut cur = seed;
        let ghost seed0 = cur;
        let mut k: usize = 0;
        while k < PICK_TRIES
            invariant
                k <= PICK_TRIES,
                n == self.answers@.len(),
                n > 0,
                seed0 == seed,
                avoid_spec(self.answer_words(), words_view(recent@), seed0, PICK_TRIES as nat) == avoid_spec(
                    self.answer_words(), words_view(recent@), cur, (PICK_TRIES - k) as nat),
            decreases PICK_TRIES - k,
        {
            let ghost prev = cur;
            cur = lcg_step(cur);
            let i = ((cur >> 33u64) as usize) % n;
            let w = self.answers[i];
            assert(self.answer_words()[i as int] == w@);
            assert(draw_spec(self.answer_words(), prev) == w@);
            if !contains_word(recent, &w) {
                assert(self.answer_words().contains(w@));
                assert(avoid_spec(self.answer_words(), words_view(recent@), prev, (PICK_TRIES - k) as nat) == w@);
                return w;
            }
            assert(avoid_spec(self.answer_words(), words_view(recent@), prev, (PICK_TRIES - k) as nat)
                == avoid_spec(self.answer_words(), words_view(recent@), cur, (PICK_TRIES - (k + 1)) as nat));
            k += 1;
        }
        let i = (cur as usize) % n;
        let w = self.answers[i];
        assert(self.answer_words()[i as int] == w@);
        w
    }
}

} // verus!

verus! {

/// The word `chosen` with cell `p` replaced by the `j`-th eligible letter of that cell.
pub open spec fn sub_word(chosen: Seq<u8>, e: Seq<Seq<u8>>, p: int, j: int) -> Seq<u8> {
    chosen.update(p, e[p][j])
}

/// The `j`-th eligible letter of cell `p` is a lowercase letter other than the
/// one read, and swapping it in gives an accepted word.
pub open spec fn sub_ok(words: Words, chosen: Seq<u8>, e: Seq<Seq<u8>>, p: int, j: int) -> bool {
    &&& 0 <= p < COLS
    &&& 0 <= j < e[p].len()
    &&& e[p][j] != chosen[p]
    &&& is_lower(e[p][j])
    &&& words.accepts(sub_word(chosen, e, p, j))
}

/// `w` is a single-letter correction of `chosen` from the eligible letters of
/// cells `p < pos`, or of cell `pos` among its first `idx` letters.
pub open spec fn is_sub_before(words: Words, chosen: Seq<u8>, e: Seq<Seq<u8>>, w: Seq<u8>, pos: int, idx: int) -> bool {
    exists|p: int, j: int|
        (p < pos || (p == pos && j < idx)) && #[trigger] sub_ok(words, chosen, e, p, j) && w == sub_word(chosen, e, p, j)
}

/// `w` is a single-letter correction of `chosen` from the eligible letters.
pub open spec fn is_correction(words: Words, chosen: Seq<u8>, e: Seq<Seq<u8>>, w: Seq<u8>) -> bool {
    is_sub_before(words, chosen, e, w, COLS as int, 0)
}

/// The conservative dictionary correction: the read word if it is accepted;
/// otherwise the single-letter correction when exactly one exists; otherwise none.
pub open spec fn correction_spec(words: Words, chosen: Seq<u8>, e: Seq<Seq<u8>>, r: Option<Seq<u8>>) -> bool {
    if words.accepts(chosen) {
        r == Some(chosen)
    } else {
        match r {
            Some(w) => is_correction(words, chosen, e, w) && forall|v: Seq<u8>|
                is_correction(words, chosen, e, v) ==> v == w,
            None => forall|w: Seq<u8>| #[trigger] is_correction(words, chosen, e, w) ==> exists|v: Seq<u8>|
                is_correction(words, chosen, e, v) && v != w,
        }
    }
}

/// The eligible letters of the five cells as sequences.
pub open spec fn eligible_view(e: [Vec<u8>; COLS]) -> Seq<Seq<u8>> {
    e@.map_values(|v: Vec<u8>| v@)
}

/// Dictionary auto-correct. `eligible[pos]` lists the letters the recognizer
/// considered a near tie with its pick for cell `pos`. If `chosen` is not an
/// accepted word, try swapping one cell at a time for one of its eligible
/// letters; if exactly one accepted word results, return it, otherwise `None`.
pub fn correct_guess(words: &Words, chosen: &[u8; 5], eligible: &[Vec<u8>; COLS]) -> (r: Option<[u8; 5]>)
    ensures
        correction_spec(*words, chosen@, eligible_view(*eligible), match r {
            Some(w) => Some(w@),
            None => None,
        }),
{
    if words.is_valid(chosen) {
        return Some(*chosen);
    }
    let ghost c = chosen@;
    let ghost e = eligible_view(*eligible);
    let mut found: Vec<[u8; 5]> = Vec::new();
    let mut pos: usize = 0;
    while pos < COLS
        invariant
            pos <= COLS,
            c == chosen@,
            e == eligible_view(*eligible),
            !words.accepts(c),
            forall|a: int, b: int| 0 <= a < b < found@.len() ==> found@[a]@ != found@[b]@,
            forall|w: Seq<u8>| #[trigger] words_view(found@).contains(w) <==> is_sub_before(*words, c, e, w, pos as int, 0),
        decreases COLS - pos,
    {
        let list = &eligible[pos];
        assert(e[pos as int] == list@);
        let mut j: usize = 0;
        while j < list.len()
            invariant
                pos < COLS,
                j <= list@.len(),
                c == chosen@,
                e == eligible_view(*eligible),
                e[pos as int] == list@,
                forall|a: int, b: int| 0 <= a < b < found@.len() ==> found@[a]@ != found@[b]@,
                forall|w: Seq<u8>| #[trigger] words_view(found@).contains(w) <==> is_sub_before(*words, c, e, w, pos as int, j as int),
            decreases list@.len() - j,
        {
            let a = list[j];
            if a != chosen[pos] && 97u8 <= a && a <= 122u8 {
                let mut w = *chosen;
                w[pos] = a;
                assert(w@ =~= sub_word(c, e, pos as int, j as int));
                if words.is_valid(&w) && !contains_word(&found, &w) {
                    let ghost before = found@;
                    assert forall|a: int| 0 <= a < before.len() implies before[a]@ != w@ by {
                        assert(words_view(before)[a] == before[a]@);
                    }
                    found.push(w);
                    assert forall|w2: Seq<u8>| #[trigger] words_view(found@).contains(w2) <==> is_sub_before(*words, c, e, w2, pos as int, j as int + 1) by {
                        if words_view(found@).contains(w2) {
                            let k = choose|k: int| 0 <= k < words_view(found@).len() && words_view(found@)[k] == w2;
                            if k < before.len() {
                                assert(words_view(before)[k] == w2);
                                assert(words_view(before).contains(w2));
                            } else {
                                assert(sub_ok(*words, c, e, pos as int, j as int));
                            }
                        }
                        if is_sub_before(*words, c, e, w2, pos as int, j as int + 1) {
                            let (p, jj) = choose|p: int, jj: int|
                                (p < pos || (p == pos && jj < j + 1)) && #[trigger] sub_ok(*words, c, e, p, jj) && w2 == sub_word(c, e, p, jj);
                            if p == pos && jj == j {
                                assert(words_view(found@)[before.len() as int] == w2);
                            } else {
                                assert(is_sub_before(*words, c, e, w2, pos as int, j as int));
                                assert(words_view(before).contains(w2));
                                let k = choose|k: int| 0 <= k < words_view(before).len() && words_view(before)[k] == w2;
                                assert(words_view(found@)[k] == w2);
                            }
                        }
                    }
                } else {
                    assert forall|w2: Seq<u8>| #[trigger] words_view(found@).contains(w2) <==> is_sub_before(*words, c, e, w2, pos as int, j as int + 1) by {
                        if is_sub_before(*words, c, e, w2, pos as int, j as int + 1) {
                            let (p, jj) = choose|p: int, jj: int|
                                (p < pos || (p == pos && jj < j + 1)) && #[trigger] sub_ok(*words, c, e, p, jj) && w2 == sub_word(c, e, p, jj);
                            if !(p == pos && jj == j) {
                                assert(is_sub_before(*words, c, e, w2, pos as int, j as int));
                            }
                        }
                    }
                }
            } else {
                assert forall|w2: Seq<u8>| #[trigger] words_view(found@).contains(w2) <==> is_sub_before(*words, c, e, w2, pos as int, j as int + 1) by {
                    if is_sub_before(*words, c, e, w2, pos as int, j as int + 1) {
                        let (p, jj) = choose|p: int, jj: int|
                            (p < pos || (p == pos && jj < j + 1)) && #[trigger] sub_ok(*words, c, e, p, jj) && w2 == sub_word(c, e, p, jj);
                        if !(p == pos && jj == j) {
                            assert(is_sub_before(*words, c, e, w2, pos as int, j as int));
                        }
                    }
                }
            }
            j += 1;
        }
        assert forall|w2: Seq<u8>| #[trigger] words_view(found@).contains(w2) <==> is_sub_before(*words, c, e, w2, pos as int + 1, 0) by {
            if is_sub_before(*words, c, e, w2, pos as int + 1, 0) {
                let (p, jj) = choose|p: int, jj: int|
                    (p < pos + 1 || (p == pos + 1 && jj < 0)) && #[trigger] sub_ok(*words, c, e, p, jj) && w2 == sub_word(c, e, p, jj);
                assert(is_sub_before(*words, c, e, w2, pos as int, j as int));
            }
            if is_sub_before(*words, c, e, w2, pos as int, j as int) {
                let (p, jj) = choose|p: int, jj: int|
                    (p < pos || (p == pos && jj < j)) && #[trigger] sub_ok(*words, c, e, p, jj) && w2 == sub_word(c, e, p, jj);
                assert(p < pos + 1);
            }
        }
        pos += 1;
    }
    if found.len() == 1 {
        let w = found[0];
        assert(words_view(found@)[0] == w@);
        assert(words_view(found@).contains(w@));
        assert(is_correction(*words, c, e, w@));
        assert forall|v: Seq<u8>| is_correction(*words, c, e, v) implies v == w@ by {
            assert(words_view(found@).contains(v));
        }
        assert(correction_spec(*words, c, e, Some(w@)));
        Some(w)
    } else {
        assert forall|w: Seq<u8>| #[trigger] is_correction(*words, c, e, w) implies exists|v: Seq<u8>|
            is_correction(*words, c, e, v) && v != w by {
            assert(words_view(found@).contains(w));
            let k = choose|k: int| 0 <= k < words_view(found@).len() && words_view(found@)[k] == w;
            let other: int = if k == 0 { 1 } else { 0 };
            assert(found@[other]@ != found@[k]@);
            assert(words_view(found@)[other] != w);
            assert(words_view(found@).contains(words_view(found@)[other]));
            assert(is_correction(*words, c, e, words_view(found@)[other]));
        }
        assert(correction_spec(*words, c, e, None));
        None
    }
}

} // verus!

verus! {

/// A correction is the read word itself when that is accepted; otherwise an
/// accepted word that differs from it in exactly one cell, where it has one of
/// that cell's eligible letters.
pub proof fn lemma_correction_is_one_swap(words: Words, chosen: Seq<u8>, e: Seq<Seq<u8>>, w: Seq<u8>)
    requires
        chosen.len() == COLS,
        correction_spec(words, chosen, e, Some(w)),
    ensures
        words.accepts(w),
        w == chosen || (w.len() == COLS && exists|p: int|
            0 <= p < COLS && w[p] != chosen[p] && #[trigger] e[p].contains(w[p]) && forall|q: int|
                0 <= q < COLS && q != p ==> w[q] == chosen[q]),
{
    if !words.accepts(chosen) {
        let (p, j) = choose|p: int, j: int|
            (p < COLS || (p == COLS && j < 0)) && #[trigger] sub_ok(words, chosen, e, p, j) && w == sub_word(
                chosen,
                e,
                p,
                j,
            );
        assert(sub_ok(words, chosen, e, p, j));
        assert(w[p] == e[p][j]);
        assert(e[p].contains(w[p]));
    }
}

/// The generator's state after `k` steps from `s`.
pub open spec fn lcg_iter(s: u64, k: nat) -> u64
    decreases k,
{
    if k == 0 {
        s
    } else {
        lcg_iter(lcg_next(s), (k - 1) as nat)
    }
}

/// The picked answer is not a recent one, unless each of the `tries` draws
/// was recent: then it is the plain pick from the generator's final state.
pub proof fn lemma_pick_fresh_or_fallback(answers: Seq<Seq<u8>>, recent: Seq<Seq<u8>>, seed: u64, tries: nat)
    ensures
        !recent.contains(avoid_spec(answers, recent, seed, tries)) || ({
            &&& forall|k: nat| k < tries ==> recent.contains(#[trigger] draw_spec(answers, lcg_iter(seed, k)))
            &&& avoid_spec(answers, recent, seed, tries) == pick_spec(answers, lcg_iter(seed, tries))
        }),
    decreases tries,
{
    if tries > 0 && recent.contains(draw_spec(answers, seed)) {
        lemma_pick_fresh_or_fallback(answers, recent, lcg_next(seed), (tries - 1) as nat);
        if recent.contains(avoid_spec(answers, recent, seed, tries)) {
            assert forall|k: nat| k < tries implies recent.contains(#[trigger] draw_spec(answers, lcg_iter(seed, k))) by {
                if k > 0 {
                    assert(lcg_iter(seed, k) == lcg_iter(lcg_next(seed), (k - 1) as nat));
                    assert(recent.contains(draw_spec(answers, lcg_iter(lcg_next(seed), (k - 1) as nat))));
                }
            }
        }
    }
}

} // verus!
