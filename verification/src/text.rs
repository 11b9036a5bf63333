//! Byte-level text helpers shared by the word-list, history and definitions
//! parsers: whitespace trimming of UTF-8 text.
//!
//! Whitespace is Unicode's White_Space: U+0009 to U+000D, U+0020, U+0085,
//! U+00A0, U+1680, U+2000 to U+200A, U+2028, U+2029, U+202F, U+205F and
//! U+3000, matched by their UTF-8 encodings.

use vstd::prelude::*;

verus! {

/// The ASCII whitespace bytes: tab, line feed, vertical tab, form feed,
/// carriage return, space.
pub open spec fn is_ascii_space(b: u8) -> bool {
    b == 32 || (9 <= b <= 13)
}

/// The byte length of the whitespace character encoded at `l[i..]`, or 0.
pub open spec fn space_at(l: Seq<u8>, i: int) -> int {
    let n = l.len() - i;
    if n >= 1 && is_ascii_space(l[i]) {
        1
    } else if n >= 2 && l[i] == 0xC2 && (l[i + 1] == 0x85 || l[i + 1] == 0xA0) {
        2
    } else if n >= 3 && ((l[i] == 0xE1 && l[i + 1] == 0x9A && l[i + 2] == 0x80) || (l[i] == 0xE2 && l[i + 1] == 0x80
        && (0x80 <= l[i + 2] <= 0x8A || l[i + 2] == 0xA8 || l[i + 2] == 0xA9 || l[i + 2] == 0xAF)) || (l[i] == 0xE2
        && l[i + 1] == 0x81 && l[i + 2] == 0x9F) || (l[i] == 0xE3 && l[i + 1] == 0x80 && l[i + 2] == 0x80)) {
        3
    } else {
        0
    }
}

/// The byte length of the whitespace character that ends `l`, or 0.
pub open spec fn space_before_end(l: Seq<u8>) -> int {
    let n = l.len() as int;
    if n >= 1 && space_at(l, n - 1) == 1 {
        1
    } else if n >= 2 && space_at(l, n - 2) == 2 {
        2
    } else if n >= 3 && space_at(l, n - 3) == 3 {
        3
    } else {
        0
    }
}

/// `l` without its leading whitespace.
pub open spec fn trim_front(l: Seq<u8>) -> Seq<u8>
    decreases l.len(),
{
    let k = space_at(l, 0);
    if k > 0 {
        trim_front(l.subrange(k, l.len() as int))
    } else {
        l
    }
}

/// `l` without its trailing whitespace.
pub open spec fn trim_back(l: Seq<u8>) -> Seq<u8>
    decreases l.len(),
{
    let k = space_before_end(l);
    if k > 0 {
        trim_back(l.subrange(0, l.len() - k))
    } else {
        l
    }
}

/// `l` without leading and trailing whitespace.
pub open spec fn trim(l: Seq<u8>) -> Seq<u8> {
    trim_back(trim_front(l))
}

/// The byte length of the whitespace character at `s[i..end]`, or 0.
fn space_len(s: &[u8], i: usize, end: usize) -> (k: usize)
    requires
        i <= end <= s@.len(),
    ensures
        k == space_at(s@.subrange(i as int, end as int), 0),
        k <= end - i,
{
    let ghost l = s@.subrange(i as int, end as int);
    let n = end - i;
    if n >= 1 {
        assert(l[0] == s@[i as int]);
    }
    if n >= 2 {
        assert(l[1] == s@[i + 1]);
    }
    if n >= 3 {
        assert(l[2] == s@[i + 2]);
    }
    if n >= 1 && (s[i] == 32u8 || (9u8 <= s[i] && s[i] <= 13u8)) {
        1
    } else if n >= 2 && s[i] == 0xC2u8 && (s[i + 1] == 0x85u8 || s[i + 1] == 0xA0u8) {
        2
    } else if n >= 3 && ((s[i] == 0xE1u8 && s[i + 1] == 0x9Au8 && s[i + 2] == 0x80u8) || (s[i] == 0xE2u8 && s[i + 1]
        == 0x80u8 && ((0x80u8 <= s[i + 2] && s[i + 2] <= 0x8Au8) || s[i + 2] == 0xA8u8 || s[i + 2] == 0xA9u8 || s[i
        + 2] == 0xAFu8)) || (s[i] == 0xE2u8 && s[i + 1] == 0x81u8 && s[i + 2] == 0x9Fu8) || (s[i] == 0xE3u8 && s[i
        + 1] == 0x80u8 && s[i + 2] == 0x80u8)) {
        3
    } else {
        0
    }
}

/// The byte length of the whitespace character that ends `s[lo..hi]`, or 0.
fn space_len_before(s: &[u8], lo: usize, hi: usize) -> (k: usize)
    requires
        lo <= hi <= s@.len(),
    ensures
        k == space_before_end(s@.subrange(lo as int, hi as int)),
        k <= hi - lo,
{
    let ghost l = s@.subrange(lo as int, hi as int);
    let n = hi - lo;
    if n >= 1 {
        assert(l.subrange(n - 1, n as int) =~= s@.subrange(hi - 1, hi as int));
        if space_len(s, hi - 1, hi) == 1 {
            return 1;
        }
    }
    if n >= 2 {
        assert(l.subrange(n - 2, n as int) =~= s@.subrange(hi - 2, hi as int));
        if space_len(s, hi - 2, hi) == 2 {
            return 2;
        }
    }
    if n >= 3 {
        assert(l.subrange(n - 3, n as int) =~= s@.subrange(hi - 3, hi as int));
        if space_len(s, hi - 3, hi) == 3 {
            return 3;
        }
    }
    0
}

/// The bounds of `s[start..end]` once whitespace is trimmed from both ends.
pub fn trim_range(s: &[u8], start: usize, end: usize) -> (r: (usize, usize))
    requires
        start <= end <= s@.len(),
    ensures
        start <= r.0 <= r.1 <= end,
        s@.subrange(r.0 as int, r.1 as int) == trim(s@.subrange(start as int, end as int)),
{
    let mut lo = start;
    loop
        invariant
            start <= lo <= end,
            end <= s@.len(),
            trim_front(s@.subrange(start as int, end as int)) == trim_front(s@.subrange(lo as int, end as int)),
        ensures
            start <= lo <= end,
            trim_front(s@.subrange(start as int, end as int)) == s@.subrange(lo as int, end as int),
        decreases end - lo,
    {
        let k = space_len(s, lo, end);
        if k == 0 {
            break;
        }
        assert(s@.subrange(lo as int, end as int).subrange(k as int, end - lo) =~= s@.subrange(lo + k, end as int));
        lo = lo + k;
    }
    let mut hi = end;
    loop
        invariant
            start <= lo <= hi <= end,
            end <= s@.len(),
            trim_front(s@.subrange(start as int, end as int)) == s@.subrange(lo as int, end as int),
            trim_back(s@.subrange(lo as int, end as int)) == trim_back(s@.subrange(lo as int, hi as int)),
        ensures
            start <= lo <= hi <= end,
            trim(s@.subrange(start as int, end as int)) == s@.subrange(lo as int, hi as int),
        decreases hi - lo,
    {
        let k = space_len_before(s, lo, hi);
        if k == 0 {
            break;
        }
        assert(s@.subrange(lo as int, hi as int).subrange(0, hi - lo - k) =~= s@.subrange(lo as int, hi - k));
        hi = hi - k;
    }
    (lo, hi)
}

} // verus!

verus! {

/// A UTF-8 continuation byte.
pub open spec fn is_cont(b: u8) -> bool {
    0x80 <= b <= 0xBF
}

/// The length of the well-formed UTF-8 character encoded at `s[i..]`, or 0
/// when the bytes there are not one (Unicode's table of well-formed byte
/// sequences: no overlong forms, no surrogates, nothing above U+10FFFF).
pub open spec fn utf8_len_at(s: Seq<u8>, i: int) -> int {
    let n = s.len() - i;
    if n < 1 {
        0
    } else if s[i] <= 0x7F {
        1
    } else if 0xC2 <= s[i] <= 0xDF {
        if n >= 2 && is_cont(s[i + 1]) { 2 } else { 0 }
    } else if s[i] == 0xE0 {
        if n >= 3 && 0xA0 <= s[i + 1] <= 0xBF && is_cont(s[i + 2]) { 3 } else { 0 }
    } else if (0xE1 <= s[i] <= 0xEC) || (0xEE <= s[i] <= 0xEF) {
        if n >= 3 && is_cont(s[i + 1]) && is_cont(s[i + 2]) { 3 } else { 0 }
    } else if s[i] == 0xED {
        if n >= 3 && 0x80 <= s[i + 1] <= 0x9F && is_cont(s[i + 2]) { 3 } else { 0 }
    } else if s[i] == 0xF0 {
        if n >= 4 && 0x90 <= s[i + 1] <= 0xBF && is_cont(s[i + 2]) && is_cont(s[i + 3]) { 4 } else { 0 }
    } else if 0xF1 <= s[i] <= 0xF3 {
        if n >= 4 && is_cont(s[i + 1]) && is_cont(s[i + 2]) && is_cont(s[i + 3]) { 4 } else { 0 }
    } else if s[i] == 0xF4 {
        if n >= 4 && 0x80 <= s[i + 1] <= 0x8F && is_cont(s[i + 2]) && is_cont(s[i + 3]) { 4 } else { 0 }
    } else {
        0
    }
}

/// `s[i..]` is a sequence of well-formed UTF-8 characters.
pub open spec fn utf8_from(s: Seq<u8>, i: int) -> bool
    decreases s.len() - i,
{
    if i >= s.len() {
        true
    } else {
        let k = utf8_len_at(s, i);
        k > 0 && utf8_from(s, i + k)
    }
}

/// `s` is well-formed UTF-8 text.
pub open spec fn is_utf8(s: Seq<u8>) -> bool {
    utf8_from(s, 0)
}

/// ASCII text is UTF-8.
pub proof fn lemma_ascii_is_utf8(s: Seq<u8>, i: int)
    requires
        0 <= i,
        forall|k: int| 0 <= k < s.len() ==> #[trigger] s[k] <= 0x7F,
    ensures
        utf8_from(s, i),
    decreases s.len() - i,
{
    if i < s.len() {
        lemma_ascii_is_utf8(s, i + 1);
    }
}

fn utf8_len(s: &[u8], i: usize) -> (k: usize)
    requires
        i <= s@.len(),
    ensures
        k == utf8_len_at(s@, i as int),
        k <= s@.len() - i,
{
    let n = s.len() - i;
    if n < 1 {
        return 0;
    }
    let b = s[i];
    let cont = |j: usize| -> (r: bool)
        requires
            i + j < s@.len(),
        ensures
            r == is_cont(s@[i + j]),
        { 0x80u8 <= s[i + j] && s[i + j] <= 0xBFu8 };
    if b <= 0x7F {
        1
    } else if 0xC2 <= b && b <= 0xDF {
        if n >= 2 && cont(1) { 2 } else { 0 }
    } else if b == 0xE0 {
        if n >= 3 && 0xA0 <= s[i + 1] && s[i + 1] <= 0xBF && cont(2) { 3 } else { 0 }
    } else if (0xE1 <= b && b <= 0xEC) || (0xEE <= b && b <= 0xEF) {
        if n >= 3 && cont(1) && cont(2) { 3 } else { 0 }
    } else if b == 0xED {
        if n >= 3 && 0x80 <= s[i + 1] && s[i + 1] <= 0x9F && cont(2) { 3 } else { 0 }
    } else if b == 0xF0 {
        if n >= 4 && 0x90 <= s[i + 1] && s[i + 1] <= 0xBF && cont(2) && cont(3) { 4 } else { 0 }
    } else if 0xF1 <= b && b <= 0xF3 {
        if n >= 4 && cont(1) && cont(2) && cont(3) { 4 } else { 0 }
    } else if b == 0xF4 {
        if n >= 4 && 0x80 <= s[i + 1] && s[i + 1] <= 0x8F && cont(2) && cont(3) { 4 } else { 0 }
    } else {
        0
    }
}

/// True when `s` is well-formed UTF-8 text.
pub fn utf8_ok(s: &[u8]) -> (r: bool)
    ensures
        r == is_utf8(s@),
{
    let mut i: usize = 0;
    while i < s.len()
        invariant
            i <= s@.len(),
            is_utf8(s@) == utf8_from(s@, i as int),
        decreases s@.len() - i,
    {
        let k = utf8_len(s, i);
        if k == 0 {
            return false;
        }
        i = i + k;
    }
    true
}

} // verus!
