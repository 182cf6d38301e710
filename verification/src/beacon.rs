//! Reading the list of block hashes that serve as epoch beacons: one
//! `label: hash` entry per line, the hash being what follows the first
//! colon with surrounding whitespace (every character Unicode counts as
//! white space) removed; lines without a colon are skipped.

use vstd::prelude::*;

verus! {

/// Whether `w` is the UTF-8 encoding of a character with the Unicode
/// `White_Space` property: tab, line feed, vertical tab, form feed,
/// carriage return, space, U+0085, U+00A0, U+1680, U+2000 to U+200A,
/// U+2028, U+2029, U+202F, U+205F or U+3000.
pub open spec fn is_space_char(w: Seq<u8>) -> bool {
    ||| w.len() == 1 && (w[0] == 32 || (9 <= w[0] && w[0] <= 13))
    ||| w.len() == 2 && w[0] == 0xC2 && (w[1] == 0x85 || w[1] == 0xA0)
    ||| w.len() == 3 && w[0] == 0xE1 && w[1] == 0x9A && w[2] == 0x80
    ||| w.len() == 3 && w[0] == 0xE2 && w[1] == 0x80 && ((0x80 <= w[2] && w[2] <= 0x8A) || w[2] == 0xA8 || w[2]
        == 0xA9 || w[2] == 0xAF)
    ||| w.len() == 3 && w[0] == 0xE2 && w[1] == 0x81 && w[2] == 0x9F
    ||| w.len() == 3 && w[0] == 0xE3 && w[1] == 0x80 && w[2] == 0x80
}

/// The length in bytes of the white-space character `s` starts with, or 0.
pub open spec fn leading_space_len(s: Seq<u8>) -> nat {
    if s.len() >= 1 && is_space_char(s.take(1)) {
        1
    } else if s.len() >= 2 && is_space_char(s.take(2)) {
        2
    } else if s.len() >= 3 && is_space_char(s.take(3)) {
        3
    } else {
        0
    }
}

/// The length in bytes of the white-space character `s` ends with, or 0.
pub open spec fn trailing_space_len(s: Seq<u8>) -> nat {
    if s.len() >= 1 && is_space_char(s.skip(s.len() - 1)) {
        1
    } else if s.len() >= 2 && is_space_char(s.skip(s.len() - 2)) {
        2
    } else if s.len() >= 3 && is_space_char(s.skip(s.len() - 3)) {
        3
    } else {
        0
    }
}

/// `s` without its leading white space.
pub open spec fn trim_start(s: Seq<u8>) -> Seq<u8>
    decreases s.len(),
{
    let k = leading_space_len(s);
    if k > 0 {
        trim_start(s.skip(k as int))
    } else {
        s
    }
}

/// `s` without its trailing white space.
pub open spec fn trim_end(s: Seq<u8>) -> Seq<u8>
    decreases s.len(),
{
    let k = trailing_space_len(s);
    if k > 0 {
        trim_end(s.take(s.len() - k))
    } else {
        s
    }
}

/// The position of the first `b` in `s`, or `-1`.
pub open spec fn first_index(s: Seq<u8>, b: u8) -> int
    decreases s.len(),
{
    if s.len() == 0 {
        -1
    } else if s[0] == b {
        0
    } else {
        let r = first_index(s.drop_first(), b);
        if r < 0 {
            -1
        } else {
            r + 1
        }
    }
}

/// The hash a line holds: what follows its first colon, trimmed; nothing
/// for a line without a colon.
pub open spec fn line_hash(line: Seq<u8>) -> Seq<Seq<u8>> {
    let c = first_index(line, 58u8);
    if c < 0 {
        Seq::empty()
    } else {
        seq![trim_end(trim_start(line.skip(c + 1)))]
    }
}

/// The hashes held by the lines of `text`, in order.
pub open spec fn epoch_hashes(text: Seq<u8>) -> Seq<Seq<u8>>
    decreases text.len(),
{
    let i = first_index(text, 10u8);
    if i < 0 {
        line_hash(text)
    } else {
        proof {
            lemma_first_index_bound(text, 10u8);
        }
        line_hash(text.take(i)) + epoch_hashes(text.skip(i + 1))
    }
}

/// The first position of a byte, when there is one, lies within the bytes.
pub proof fn lemma_first_index_bound(s: Seq<u8>, b: u8)
    ensures
        -1 <= first_index(s, b) < s.len(),
    decreases s.len(),
{
    if s.len() > 0 && s[0] != b {
        lemma_first_index_bound(s.drop_first(), b);
    }
}

proof fn lemma_first_index(s: Seq<u8>, b: u8, k: int)
    requires
        -1 <= k <= s.len(),
        k == -1 ==> forall|m: int| 0 <= m < s.len() ==> s[m] != b,
        k >= 0 ==> k < s.len() && s[k] == b && forall|m: int| 0 <= m < k ==> s[m] != b,
    ensures
        first_index(s, b) == k,
    decreases s.len(),
{
    if s.len() > 0 && s[0] != b {
        let k2 = if k < 0 { -1 } else { k - 1 };
        lemma_first_index(s.drop_first(), b, k2);
    }
}

/// Whether three bytes encode a white-space character.
fn three_byte_space(b0: u8, b1: u8, b2: u8) -> (r: bool)
    ensures
        r == is_space_char(seq![b0, b1, b2]),
{
    (b0 == 0xE1 && b1 == 0x9A && b2 == 0x80) || (b0 == 0xE2 && b1 == 0x80 && ((0x80 <= b2 && b2 <= 0x8A) || b2 == 0xA8
        || b2 == 0xA9 || b2 == 0xAF)) || (b0 == 0xE2 && b1 == 0x81 && b2 == 0x9F) || (b0 == 0xE3 && b1 == 0x80 && b2
        == 0x80)
}

/// The length of the white-space character `text[lo..hi]` starts with, or 0.
fn leading_space_at(text: &[u8], lo: usize, hi: usize) -> (k: usize)
    requires
        lo <= hi <= text@.len(),
    ensures
        k == leading_space_len(text@.subrange(lo as int, hi as int)),
{
    let ghost s = text@.subrange(lo as int, hi as int);
    let n = hi - lo;
    proof {
        if n >= 1 {
            assert(s.take(1) =~= seq![text@[lo as int]]);
        }
        if n >= 2 {
            assert(s.take(2) =~= seq![text@[lo as int], text@[lo + 1]]);
        }
        if n >= 3 {
            assert(s.take(3) =~= seq![text@[lo as int], text@[lo + 1], text@[lo + 2]]);
        }
    }
    let c1 = n >= 1 && (text[lo] == 32 || (9 <= text[lo] && text[lo] <= 13));
    let c2 = n >= 2 && text[lo] == 0xC2 && (text[lo + 1] == 0x85 || text[lo + 1] == 0xA0);
    let c3 = n >= 3 && three_byte_space(text[lo], text[lo + 1], text[lo + 2]);
    if c1 {
        1
    } else if c2 {
        2
    } else if c3 {
        3
    } else {
        0
    }
}

/// The length of the white-space character `text[lo..hi]` ends with, or 0.
fn trailing_space_at(text: &[u8], lo: usize, hi: usize) -> (k: usize)
    requires
        lo <= hi <= text@.len(),
    ensures
        k == trailing_space_len(text@.subrange(lo as int, hi as int)),
{
    let ghost s = text@.subrange(lo as int, hi as int);
    let n = hi - lo;
    proof {
        if n >= 1 {
            assert(s.skip(s.len() - 1) =~= seq![text@[hi - 1]]);
        }
        if n >= 2 {
            assert(s.skip(s.len() - 2) =~= seq![text@[hi - 2], text@[hi - 1]]);
        }
        if n >= 3 {
            assert(s.skip(s.len() - 3) =~= seq![text@[hi - 3], text@[hi - 2], text@[hi - 1]]);
        }
    }
    let c1 = n >= 1 && (text[hi - 1] == 32 || (9 <= text[hi - 1] && text[hi - 1] <= 13));
    let c2 = n >= 2 && text[hi - 2] == 0xC2 && (text[hi - 1] == 0x85 || text[hi - 1] == 0xA0);
    let c3 = n >= 3 && three_byte_space(text[hi - 3], text[hi - 2], text[hi - 1]);
    if c1 {
        1
    } else if c2 {
        2
    } else if c3 {
        3
    } else {
        0
    }
}

/// Appends the hash held by `text[start..end]`, if the line holds one.
fn push_line_hash(out: &mut Vec<Vec<u8>>, text: &[u8], start: usize, end: usize)
    requires
        start <= end <= text@.len(),
    ensures
        final(out)@.map_values(|v: Vec<u8>| v@) == old(out)@.map_values(|v: Vec<u8>| v@) + line_hash(
            text@.subrange(start as int, end as int),
        ),
{
    let ghost line = text@.subrange(start as int, end as int);
    let mut colon = start;
    while colon < end && text[colon] != 58u8
        invariant
            start <= colon <= end,
            end <= text@.len(),
            line == text@.subrange(start as int, end as int),
            forall|m: int| start <= m < colon ==> text@[m] != 58u8,
        decreases end - colon,
    {
        colon = colon + 1;
    }
    if colon == end {
        proof {
            lemma_first_index(line, 58u8, -1);
            assert(old(out)@.map_values(|v: Vec<u8>| v@) + line_hash(line) =~= old(out)@.map_values(|v: Vec<u8>| v@));
        }
        return;
    }
    proof {
        lemma_first_index(line, 58u8, (colon - start) as int);
    }
    let mut lo = colon + 1;
    let mut stripping = true;
    proof {
        assert(line.skip(colon - start + 1) =~= text@.subrange(colon + 1, end as int));
    }
    while stripping
        invariant
            colon + 1 <= lo <= end,
            end <= text@.len(),
            trim_start(text@.subrange(lo as int, end as int)) == trim_start(text@.subrange(colon + 1, end as int)),
            !stripping ==> trim_start(text@.subrange(lo as int, end as int)) == text@.subrange(lo as int, end as int),
        decreases end - lo + (if stripping { 1int } else { 0int }),
    {
        let k = leading_space_at(text, lo, end);
        if k == 0 {
            stripping = false;
        } else {
            proof {
                assert(text@.subrange(lo as int, end as int).skip(k as int) =~= text@.subrange(lo + k, end as int));
            }
            lo = lo + k;
        }
    }
    let mut hi = end;
    stripping = true;
    while stripping
        invariant
            lo <= hi <= end,
            end <= text@.len(),
            trim_end(text@.subrange(lo as int, hi as int)) == trim_end(text@.subrange(lo as int, end as int)),
            !stripping ==> trim_end(text@.subrange(lo as int, hi as int)) == text@.subrange(lo as int, hi as int),
        decreases hi - lo + (if stripping { 1int } else { 0int }),
    {
        let k = trailing_space_at(text, lo, hi);
        if k == 0 {
            stripping = false;
        } else {
            proof {
                let t = text@.subrange(lo as int, hi as int);
                assert(t.take(t.len() - k) =~= text@.subrange(lo as int, hi - k));
            }
            hi = hi - k;
        }
    }
    let mut hash: Vec<u8> = Vec::new();
    for k in lo..hi
        invariant
            lo <= hi <= end <= text@.len(),
            hash@ == text@.subrange(lo as int, k as int),
    {
        hash.push(text[k]);
        proof {
            assert(hash@ =~= text@.subrange(lo as int, k + 1));
        }
    }
    proof {
        assert(text@.subrange(lo as int, hi as int) == trim_end(trim_start(line.skip(colon - start + 1))));
    }
    let ghost before = out@;
    out.push(hash);
    proof {
        assert(out@.map_values(|v: Vec<u8>| v@) =~= before.map_values(|v: Vec<u8>| v@) + line_hash(line));
    }
}

/// The hashes held by the lines of `text`, in order.
pub fn parse_epoch_hashes(text: &[u8]) -> (r: Vec<Vec<u8>>)
    ensures
        r@.map_values(|v: Vec<u8>| v@) == epoch_hashes(text@),
{
    let mut out: Vec<Vec<u8>> = Vec::new();
    let n = text.len();
    let mut start: usize = 0;
    proof {
        assert(text@.skip(0) =~= text@);
    }
    for i in 0..n
        invariant
            n == text@.len(),
            start <= i,
            forall|m: int| start <= m < i ==> text@[m] != 10u8,
            out@.map_values(|v: Vec<u8>| v@) + epoch_hashes(text@.skip(start as int)) == epoch_hashes(text@),
    {
        if text[i] == 10u8 {
            let ghost rest = text@.skip(start as int);
            proof {
                lemma_first_index(rest, 10u8, (i - start) as int);
                assert(rest.take(i - start) =~= text@.subrange(start as int, i as int));
                assert(rest.skip(i - start + 1) =~= text@.skip(i + 1));
            }
            let ghost before = out@.map_values(|v: Vec<u8>| v@);
            push_line_hash(&mut out, text, start, i);
            proof {
                assert(before + line_hash(text@.subrange(start as int, i as int)) + epoch_hashes(text@.skip(i + 1))
                    =~= before + epoch_hashes(rest));
            }
            start = i + 1;
        }
    }
    let ghost rest = text@.skip(start as int);
    proof {
        lemma_first_index(rest, 10u8, -1);
        assert(rest =~= text@.subrange(start as int, n as int));
    }
    push_line_hash(&mut out, text, start, n);
    out
}

} // verus!
