//! Recent-answer memory, so the same word does not recur for a long stretch:
//! the newest answers, newest last, capped at `CAP` entries, and the text of
//! the file that keeps them across restarts (one word per line).

use vstd::prelude::*;
use crate::game::{is_word, parse_spec, scan_words, words_view};
use crate::text::{is_utf8, lemma_ascii_is_utf8, space_at, space_before_end, trim, trim_front, utf8_ok};

verus! {

/// How many recent answers are refused as the next answer. A heavy sitting
/// is 20-40 games, so 200 keeps words fresh far longer than any session,
/// yet leaves most of the answer pool in play.
pub const CAP: usize = 200;

/// The list after appending `w` and keeping only the newest `CAP` entries.
pub open spec fn remember_spec(recent: Seq<[u8; 5]>, w: [u8; 5]) -> Seq<[u8; 5]> {
    let s = recent.push(w);
    if s.len() > CAP {
        s.subrange(s.len() - CAP, s.len() as int)
    } else {
        s
    }
}

/// Append a freshly chosen answer and cap the list to the newest `CAP` entries.
pub fn remember(recent: &mut Vec<[u8; 5]>, w: [u8; 5])
    requires
        old(recent)@.len() < usize::MAX,
    ensures
        final(recent)@ == remember_spec(old(recent)@, w),
{
    recent.push(w);
    let len = recent.len();
    if len > CAP {
        let cut = len - CAP;
        let mut kept: Vec<[u8; 5]> = Vec::new();
        let mut i = cut;
        while i < len
            invariant
                cut <= i <= len,
                len == recent@.len(),
                kept@ == recent@.subrange(cut as int, i as int),
            decreases len - i,
        {
            kept.push(recent[i]);
            assert(recent@.subrange(cut as int, i + 1) =~= recent@.subrange(cut as int, i as int).push(recent@[i as int]));
            i += 1;
        }
        *recent = kept;
    }
}

/// The memory never outgrows its cap, the new answer is its newest entry, and
/// the entries before it are the previous ones, oldest dropped first.
pub proof fn lemma_remember_keeps_newest(recent: Seq<[u8; 5]>, w: [u8; 5])
    ensures
        recent.len() < CAP ==> remember_spec(recent, w) == recent.push(w),
        remember_spec(recent, w).len() == if recent.len() + 1 <= CAP { recent.len() + 1 } else { CAP as nat },
        remember_spec(recent, w).last() == w,
        forall|i: int| 0 <= i < remember_spec(recent, w).len() - 1 ==> #[trigger] remember_spec(recent, w)[i]
            == recent[recent.len() - (remember_spec(recent, w).len() - 1) + i],
{
}

} // verus!

verus! {

/// Lines joined with a line feed between each two (none after the last).
pub open spec fn join_lines(ws: Seq<Seq<u8>>) -> Seq<u8>
    decreases ws.len(),
{
    if ws.len() == 0 {
        Seq::empty()
    } else if ws.len() == 1 {
        ws[0]
    } else {
        join_lines(ws.drop_last()) + seq![10u8] + ws.last()
    }
}

/// The words of `recent` that are UTF-8 text, in order.
pub open spec fn text_words(recent: Seq<[u8; 5]>) -> Seq<Seq<u8>>
    decreases recent.len(),
{
    if recent.len() == 0 {
        Seq::empty()
    } else {
        let rest = text_words(recent.drop_last());
        if is_utf8(recent.last()@) {
            rest.push(recent.last()@)
        } else {
            rest
        }
    }
}

/// The text of the history file: the recent words that are text, one per
/// line, newest last, with no line feed after the last.
pub open spec fn history_text(recent: Seq<[u8; 5]>) -> Seq<u8> {
    join_lines(text_words(recent))
}

/// The text of the history file for `recent`.
pub fn history_file(recent: &[[u8; 5]]) -> (t: Vec<u8>)
    ensures
        t@ == history_text(recent@),
{
    let mut out: Vec<u8> = Vec::new();
    let mut any = false;
    let mut i: usize = 0;
    while i < recent.len()
        invariant
            i <= recent@.len(),
            out@ == join_lines(text_words(recent@.take(i as int))),
            any == (text_words(recent@.take(i as int)).len() > 0),
        decreases recent@.len() - i,
    {
        let w = recent[i];
        let ghost before = text_words(recent@.take(i as int));
        assert(recent@.take(i as int + 1).drop_last() =~= recent@.take(i as int));
        if utf8_ok(&w) {
            if any {
                out.push(10u8);
            }
            out.push(w[0]);
            out.push(w[1]);
            out.push(w[2]);
            out.push(w[3]);
            out.push(w[4]);
            proof {
                let after = before.push(w@);
                assert(after.drop_last() =~= before);
                if before.len() == 0 {
                    assert(out@ =~= w@);
                } else {
                    assert(out@ =~= join_lines(before) + seq![10u8] + w@);
                }
                assert(out@ =~= join_lines(after));
            }
            any = true;
        }
        i += 1;
    }
    assert(recent@.take(recent@.len() as int) =~= recent@);
    out
}

proof fn lemma_join_first(ws: Seq<Seq<u8>>)
    requires
        ws.len() >= 2,
    ensures
        join_lines(ws) == ws[0] + seq![10u8] + join_lines(ws.drop_first()),
    decreases ws.len(),
{
    if ws.len() == 2 {
        assert(ws.drop_last() =~= seq![ws[0]]);
        assert(ws.drop_first() =~= seq![ws[1]]);
        assert(join_lines(ws.drop_last()) == ws[0]);
        assert(join_lines(ws.drop_first()) == ws[1]);
        assert(ws.last() == ws[1]);
        assert(join_lines(ws) =~= ws[0] + seq![10u8] + join_lines(ws.drop_first()));
    } else {
        lemma_join_first(ws.drop_last());
        assert(ws.drop_last().drop_first() =~= ws.drop_first().drop_last());
        assert(ws.drop_last()[0] == ws[0]);
        assert(ws.drop_first().last() == ws.last());
        assert(join_lines(ws) =~= ws[0] + seq![10u8] + join_lines(ws.drop_first()));
    }
}

proof fn lemma_scan_skip(s: Seq<u8>, start: int, i: int, j: int)
    requires
        0 <= start <= i <= j <= s.len(),
        forall|k: int| i <= k < j ==> #[trigger] s[k] != 10,
    ensures
        scan_words(s, start, i) == scan_words(s, start, j),
    decreases j - i,
{
    if i < j {
        lemma_scan_skip(s, start, i + 1, j);
    }
}

proof fn lemma_scan_shift(p: Seq<u8>, t: Seq<u8>, a: int, b: int)
    requires
        0 <= a <= b <= t.len(),
    ensures
        scan_words(p + t, p.len() + a, p.len() + b) == scan_words(t, a, b),
    decreases t.len() - b,
{
    let s = p + t;
    let m = p.len() as int;
    if b >= t.len() {
        assert(s.subrange(m + a, s.len() as int) =~= t.subrange(a, t.len() as int));
    } else {
        assert(s[m + b] == t[b]);
        if t[b] == 10 {
            assert(s.subrange(m + a, m + b) =~= t.subrange(a, b));
            lemma_scan_shift(p, t, b + 1, b + 1);
        } else {
            lemma_scan_shift(p, t, a, b + 1);
        }
    }
}

proof fn lemma_word_trims_to_itself(w: Seq<u8>)
    requires
        is_word(w),
    ensures
        trim(w) == w,
{
    assert(crate::game::is_lower(w[0]) && crate::game::is_lower(w[2]) && crate::game::is_lower(w[3])
        && crate::game::is_lower(w[4]));
    assert(space_at(w, 0) == 0);
    assert(trim_front(w) == w);
    assert(space_at(w, 4) == 0 && space_at(w, 3) == 0 && space_at(w, 2) == 0);
    assert(space_before_end(w) == 0);
}

proof fn lemma_word_has_no_line_feed(w: Seq<u8>)
    requires
        is_word(w),
    ensures
        forall|k: int| 0 <= k < w.len() ==> #[trigger] w[k] != 10,
        forall|k: int| 0 <= k < w.len() ==> #[trigger] w[k] <= 0x7F,
{
    assert forall|k: int| 0 <= k < w.len() implies #[trigger] w[k] != 10 && w[k] <= 0x7F by {
        assert(crate::game::is_lower(w[k]));
    }
}

proof fn lemma_parse_one_word(w: Seq<u8>)
    requires
        is_word(w),
    ensures
        parse_spec(w) == seq![w],
{
    lemma_word_has_no_line_feed(w);
    lemma_scan_skip(w, 0, 0, 5);
    lemma_word_trims_to_itself(w);
    assert(w.subrange(0, 5) =~= w);
}

proof fn lemma_parse_word_then(w: Seq<u8>, t: Seq<u8>)
    requires
        is_word(w),
    ensures
        parse_spec(w + seq![10u8] + t) == seq![w] + parse_spec(t),
{
    let p = w + seq![10u8];
    let s = p + t;
    lemma_word_has_no_line_feed(w);
    assert forall|k: int| 0 <= k < 5 implies #[trigger] s[k] != 10 by {
        assert(s[k] == w[k]);
    }
    lemma_scan_skip(s, 0, 0, 5);
    assert(s[5] == 10);
    assert(s.subrange(0, 5) =~= w);
    lemma_word_trims_to_itself(w);
    lemma_scan_shift(p, t, 0, 0);
}

proof fn lemma_parse_joined(ws: Seq<Seq<u8>>)
    requires
        forall|i: int| 0 <= i < ws.len() ==> is_word(#[trigger] ws[i]),
    ensures
        parse_spec(join_lines(ws)) == ws,
    decreases ws.len(),
{
    if ws.len() == 0 {
        assert(trim(Seq::<u8>::empty().subrange(0, 0)).len() == 0) by {
            assert(Seq::<u8>::empty().subrange(0, 0) =~= Seq::<u8>::empty());
        }
        assert(parse_spec(join_lines(ws)) =~= ws);
    } else if ws.len() == 1 {
        assert(is_word(ws[0]));
        lemma_parse_one_word(ws[0]);
        assert(seq![ws[0]] =~= ws);
    } else {
        assert(is_word(ws[0]));
        lemma_join_first(ws);
        lemma_parse_word_then(ws[0], join_lines(ws.drop_first()));
        assert forall|i: int| 0 <= i < ws.drop_first().len() implies is_word(#[trigger] ws.drop_first()[i]) by {
            assert(is_word(ws[i + 1]));
        }
        lemma_parse_joined(ws.drop_first());
        assert(seq![ws[0]] + ws.drop_first() =~= ws);
    }
}

proof fn lemma_text_words_of_words(recent: Seq<[u8; 5]>)
    requires
        forall|i: int| 0 <= i < recent.len() ==> is_word(#[trigger] recent[i]@),
    ensures
        text_words(recent) == words_view(recent),
    decreases recent.len(),
{
    if recent.len() > 0 {
        let r = recent.drop_last();
        assert forall|i: int| 0 <= i < r.len() implies is_word(#[trigger] r[i]@) by {
            assert(is_word(recent[i]@));
        }
        lemma_text_words_of_words(r);
        assert(is_word(recent[recent.len() - 1]@));
        lemma_word_has_no_line_feed(recent.last()@);
        lemma_ascii_is_utf8(recent.last()@, 0);
        assert(words_view(recent) =~= words_view(r).push(recent.last()@));
    }
}

proof fn lemma_joined_words_are_ascii(ws: Seq<Seq<u8>>)
    requires
        forall|i: int| 0 <= i < ws.len() ==> is_word(#[trigger] ws[i]),
    ensures
        forall|k: int| 0 <= k < join_lines(ws).len() ==> #[trigger] join_lines(ws)[k] <= 0x7F,
    decreases ws.len(),
{
    if ws.len() == 1 {
        assert(is_word(ws[0]));
        lemma_word_has_no_line_feed(ws[0]);
    } else if ws.len() >= 2 {
        let r = ws.drop_last();
        assert forall|i: int| 0 <= i < r.len() implies is_word(#[trigger] r[i]) by {
            assert(is_word(ws[i]));
        }
        lemma_joined_words_are_ascii(r);
        assert(is_word(ws[ws.len() - 1]));
        lemma_word_has_no_line_feed(ws.last());
        let j = join_lines(r) + seq![10u8] + ws.last();
        assert forall|k: int| 0 <= k < j.len() implies #[trigger] j[k] <= 0x7F by {
            if k < join_lines(r).len() {
                assert(j[k] == join_lines(r)[k]);
            } else if k > join_lines(r).len() {
                assert(j[k] == ws.last()[k - join_lines(r).len() - 1]);
            }
        }
    }
}

/// What the history file gives back: when every recent answer is a word, the
/// file's text is UTF-8 and reading it yields the same words, in order.
pub proof fn lemma_history_round_trip(recent: Seq<[u8; 5]>)
    requires
        forall|i: int| 0 <= i < recent.len() ==> is_word(#[trigger] recent[i]@),
    ensures
        is_utf8(history_text(recent)),
        parse_spec(history_text(recent)) == words_view(recent),
{
    lemma_text_words_of_words(recent);
    let ws = words_view(recent);
    assert forall|i: int| 0 <= i < ws.len() implies is_word(#[trigger] ws[i]) by {
        assert(is_word(recent[i]@));
    }
    lemma_parse_joined(ws);
    lemma_joined_words_are_ascii(ws);
    lemma_ascii_is_utf8(join_lines(ws), 0);
}

} // verus!
