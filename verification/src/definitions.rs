//! Offline answer-word definitions: a tab-separated table, one
//! `word<TAB>definition` per line, keyed by the word's code.

use vstd::prelude::*;
use std::collections::HashMap;
use crate::text::{trim, trim_range};
use crate::game::word_code;

verus! {

broadcast use vstd::std_specs::hash::group_hash_axioms;

/// ASCII lowercase of one byte.
pub open spec fn ascii_lower(b: u8) -> u8 {
    if 65 <= b <= 90 { (b + 32) as u8 } else { b }
}

/// ASCII lowercase of a byte string.
pub open spec fn lower_seq(s: Seq<u8>) -> Seq<u8> {
    s.map_values(|b: u8| ascii_lower(b))
}

/// Index of the first tab in `t` at or after `i`, or -1.
pub open spec fn find_tab(t: Seq<u8>, i: int) -> int
    decreases t.len() - i,
{
    if i >= t.len() {
        -1
    } else if t[i] == 9 {
        i
    } else {
        find_tab(t, i + 1)
    }
}

/// The entry one line of the table gives, if any. The line is trimmed;
/// empty lines and lines starting with `#` are skipped; the word is the text
/// before the first tab, trimmed and lowercased, and must be five bytes long;
/// the definition is the text after that tab, trimmed, and must not be empty.
pub open spec fn def_of_line(l: Seq<u8>) -> Option<(u64, Seq<u8>)> {
    let t = trim(l);
    if t.len() == 0 || t[0] == 35 {
        None
    } else {
        let j = find_tab(t, 0);
        if j < 0 {
            None
        } else {
            let w = lower_seq(trim(t.subrange(0, j)));
            let d = trim(t.subrange(j + 1, t.len() as int));
            if w.len() == 5 && d.len() > 0 {
                Some((word_code(w), d))
            } else {
                None
            }
        }
    }
}

/// The table after adding the entry of line `l`; a later line for a word replaces an earlier one.
pub open spec fn apply_def(m: Map<u64, Seq<u8>>, l: Seq<u8>) -> Map<u64, Seq<u8>> {
    match def_of_line(l) {
        Some((k, d)) => m.insert(k, d),
        None => m,
    }
}

/// The table after the lines of `s` from the line starting at `start`, where
/// `s[start..i]` holds no line feed.
pub open spec fn scan_defs(s: Seq<u8>, start: int, i: int, m: Map<u64, Seq<u8>>) -> Map<u64, Seq<u8>>
    decreases s.len() - i,
{
    if i >= s.len() {
        apply_def(m, s.subrange(start, s.len() as int))
    } else if s[i] == 10 {
        scan_defs(s, i + 1, i + 1, apply_def(m, s.subrange(start, i)))
    } else {
        scan_defs(s, start, i + 1, m)
    }
}

/// The definitions table of a text.
pub open spec fn tsv_spec(s: Seq<u8>) -> Map<u64, Seq<u8>> {
    scan_defs(s, 0, 0, Map::empty())
}

/// A table with its definitions as byte strings.
pub open spec fn defs_view(m: Map<u64, Vec<u8>>) -> Map<u64, Seq<u8>> {
    m.map_values(|v: Vec<u8>| v@)
}

/// Add the entry of line `s[start..end]`, if it has one.
fn apply_line(s: &[u8], start: usize, end: usize, map: &mut HashMap<u64, Vec<u8>>)
    requires
        start <= end <= s@.len(),
    ensures
        defs_view(final(map)@) == apply_def(defs_view(old(map)@), s@.subrange(start as int, end as int)),
{
    let ghost l = s@.subrange(start as int, end as int);
    let (lo, hi) = trim_range(s, start, end);
    let ghost t = s@.subrange(lo as int, hi as int);
    if hi == lo || s[lo] == 35u8 {
        assert(defs_view(map@) =~= apply_def(defs_view(map@), l));
        return;
    }
    let mut j = lo;
    while j < hi && s[j] != 9u8
        invariant
            lo <= j <= hi,
            hi <= s@.len(),
            t == s@.subrange(lo as int, hi as int),
            find_tab(t, 0) == find_tab(t, j - lo),
        decreases hi - j,
    {
        j += 1;
    }
    if j == hi {
        assert(find_tab(t, 0) == -1);
        assert(defs_view(map@) =~= apply_def(defs_view(map@), l));
        return;
    }
    assert(find_tab(t, 0) == j - lo);
    let (wlo, whi) = trim_range(s, lo, j);
    let (dlo, dhi) = trim_range(s, j + 1, hi);
    assert(t.subrange(0, j - lo) =~= s@.subrange(lo as int, j as int));
    assert(t.subrange(j - lo + 1, t.len() as int) =~= s@.subrange(j + 1, hi as int));
    if whi - wlo != 5 || dhi == dlo {
        assert(defs_view(map@) =~= apply_def(defs_view(map@), l));
        return;
    }
    let key: [u8; 5] = [lower(s[wlo]), lower(s[wlo + 1]), lower(s[wlo + 2]), lower(s[wlo + 3]), lower(s[wlo + 4])];
    assert(key@ =~= lower_seq(s@.subrange(wlo as int, whi as int)));
    let code = crate::game::code_of(&key);
    let mut d: Vec<u8> = Vec::new();
    let mut k = dlo;
    while k < dhi
        invariant
            dlo <= k <= dhi,
            dhi <= s@.len(),
            d@ == s@.subrange(dlo as int, k as int),
        decreases dhi - k,
    {
        d.push(s[k]);
        assert(s@.subrange(dlo as int, k + 1) =~= s@.subrange(dlo as int, k as int).push(s@[k as int]));
        k += 1;
    }
    let ghost before = map@;
    map.insert(code, d);
    assert(defs_view(map@) =~= apply_def(defs_view(before), l));
}

/// ASCII lowercase of one byte.
pub fn lower(b: u8) -> (r: u8)
    ensures
        r == ascii_lower(b),
{
    if 65u8 <= b && b <= 90u8 { b + 32 } else { b }
}

/// Add the entries of every line of `text` to `map`, later lines replacing earlier ones.
fn scan_into(text: &[u8], map: &mut HashMap<u64, Vec<u8>>)
    ensures
        defs_view(final(map)@) == scan_defs(text@, 0, 0, defs_view(old(map)@)),
{
    let ghost goal = scan_defs(text@, 0, 0, defs_view(map@));
    let mut start: usize = 0;
    let mut i: usize = 0;
    while i < text.len()
        invariant
            start <= i <= text@.len(),
            scan_defs(text@, start as int, i as int, defs_view(map@)) == goal,
        decreases text@.len() - i,
    {
        if text[i] == 10u8 {
            apply_line(text, start, i, map);
            start = i + 1;
        }
        i += 1;
    }
    apply_line(text, start, text.len(), map);
}

/// Parse the definitions table.
pub fn parse_tsv(text: &[u8]) -> (map: HashMap<u64, Vec<u8>>)
    ensures
        defs_view(map@) == tsv_spec(text@),
{
    let mut map: HashMap<u64, Vec<u8>> = HashMap::new();
    assert(defs_view(map@) =~= Map::<u64, Seq<u8>>::empty());
    scan_into(text, &mut map);
    map
}

proof fn lemma_apply_over(m: Map<u64, Seq<u8>>, n: Map<u64, Seq<u8>>, l: Seq<u8>)
    ensures
        apply_def(m.union_prefer_right(n), l) == m.union_prefer_right(apply_def(n, l)),
{
    match def_of_line(l) {
        Some((k, d)) => {
            assert(m.union_prefer_right(n).insert(k, d) =~= m.union_prefer_right(n.insert(k, d)));
        },
        None => {},
    }
}

proof fn lemma_scan_over(s: Seq<u8>, start: int, i: int, m: Map<u64, Seq<u8>>, n: Map<u64, Seq<u8>>)
    ensures
        scan_defs(s, start, i, m.union_prefer_right(n)) == m.union_prefer_right(scan_defs(s, start, i, n)),
    decreases s.len() - i,
{
    if i >= s.len() {
        lemma_apply_over(m, n, s.subrange(start, s.len() as int));
    } else if s[i] == 10 {
        lemma_apply_over(m, n, s.subrange(start, i));
        lemma_scan_over(s, i + 1, i + 1, m, apply_def(n, s.subrange(start, i)));
    } else {
        lemma_scan_over(s, start, i + 1, m, n);
    }
}

/// The definitions of a built-in table `base`, overlaid with those of a
/// second table `over` when there is one: an entry of `over` replaces the
/// entry of `base` for the same word, and the other entries of both stay.
pub fn overlay_tsv(base: &[u8], over: Option<&[u8]>) -> (map: HashMap<u64, Vec<u8>>)
    ensures
        defs_view(map@) == match over {
            Some(o) => tsv_spec(base@).union_prefer_right(tsv_spec(o@)),
            None => tsv_spec(base@),
        },
{
    let mut map = parse_tsv(base);
    if let Some(o) = over {
        proof {
            lemma_scan_over(o@, 0, 0, tsv_spec(base@), Map::empty());
            assert(tsv_spec(base@).union_prefer_right(Map::<u64, Seq<u8>>::empty()) =~= tsv_spec(base@));
        }
        scan_into(o, &mut map);
    }
    map
}

/// The code under which the definition of `answer` is filed, when the
/// answer's text can match a table word: all of its bytes are ASCII.
pub open spec fn answer_key(answer: Seq<u8>) -> Option<u64> {
    if forall|i: int| 0 <= i < 5 ==> #[trigger] answer[i] < 128 {
        Some(word_code(lower_seq(answer)))
    } else {
        None
    }
}

/// Look up the definition of a five-letter answer (case-insensitively).
pub fn get<'a>(map: &'a HashMap<u64, Vec<u8>>, answer: &[u8; 5]) -> (d: Option<&'a Vec<u8>>)
    ensures
        match answer_key(answer@) {
            Some(k) => match d {
                Some(v) => map@.contains_key(k) && map@[k] == *v,
                None => !map@.contains_key(k),
            },
            None => d is None,
        },
{
    let mut i: usize = 0;
    while i < 5
        invariant
            i <= 5,
            forall|j: int| 0 <= j < i ==> #[trigger] answer@[j] < 128,
        decreases 5 - i,
    {
        if answer[i] >= 128u8 {
            return None;
        }
        i += 1;
    }
    let key: [u8; 5] = [lower(answer[0]), lower(answer[1]), lower(answer[2]), lower(answer[3]), lower(answer[4])];
    assert(key@ =~= lower_seq(answer@));
    let code = crate::game::code_of(&key);
    map.get(&code)
}

} // verus!
