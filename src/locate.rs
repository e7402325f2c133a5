//! Finding keys inside a record's text.
use crate::record::RawRecord;
use vstd::prelude::*;
use vstd::string::{StrSliceExecFns, StringSliceAdditionalSpecFns};

verus! {

broadcast use vstd::string::axiom_spec_iter;

/// The line break byte.
pub const NEWLINE: u8 = 10;

/// `pat` occurs in `text` starting at byte `i`.
pub open spec fn occurs_at(text: Seq<u8>, pat: Seq<u8>, i: int) -> bool {
    0 <= i && i + pat.len() <= text.len() && text.subrange(i, i + pat.len()) == pat
}

/// `r` is the key span of pattern `pat` in `text`: `(0, 0)` when `pat` does
/// not occur; otherwise it starts at the first occurrence of `pat` and ends
/// at the first line break from there on, or at the end of the text.
pub open spec fn key_span(text: Seq<u8>, pat: Seq<u8>, r: (usize, usize)) -> bool {
    if exists|i: int| occurs_at(text, pat, i) {
        &&& occurs_at(text, pat, r.0 as int)
        &&& forall|i: int| 0 <= i < r.0 ==> !occurs_at(text, pat, i)
        &&& r.0 <= r.1 <= text.len()
        &&& r.1 < text.len() ==> text[r.1 as int] == NEWLINE
        &&& forall|j: int| r.0 <= j < r.1 ==> text[j] != NEWLINE
    } else {
        r == (0usize, 0usize)
    }
}

/// Whether `pat` occurs in `text` at byte `i`.
fn matches_at(text: &[u8], pat: &[u8], i: usize) -> (r: bool)
    requires
        i + pat@.len() <= text@.len(),
    ensures
        r == occurs_at(text@, pat@, i as int),
{
    let m = pat.len();
    let mut k: usize = 0;
    while k < m
        invariant
            m == pat@.len(),
            i + m <= text@.len(),
            text@.len() == text.len(),
            0 <= k <= m,
            text@.subrange(i as int, i + k) == pat@.subrange(0, k as int),
        decreases m - k,
    {
        if text[i + k] != pat[k] {
            assert(text@.subrange(i as int, i + m)[k as int] != pat@[k as int]);
            return false;
        }
        k = k + 1;
        assert(text@.subrange(i as int, i + k) =~= pat@.subrange(0, k as int));
    }
    assert(pat@.subrange(0, m as int) =~= pat@);
    true
}

/// The key locator: the byte span of the key that `pattern` introduces in
/// `text`, from the first occurrence of `pattern` to the next line break
/// (or the end of the text), or `(0, 0)` when `pattern` does not occur.
pub fn locate(pattern: &[u8], text: &[u8]) -> (r: (usize, usize))
    ensures
        key_span(text@, pattern@, r),
{
    let n = text.len();
    let m = pattern.len();
    if m > n {
        return (0, 0);
    }
    let mut i: usize = 0;
    while i <= n - m
        invariant
            n == text@.len(),
            m == pattern@.len(),
            m <= n,
            i <= n - m + 1,
            forall|j: int| 0 <= j < i ==> !occurs_at(text@, pattern@, j),
        decreases n - m + 1 - i,
    {
        if matches_at(text, pattern, i) {
            let mut e: usize = i;
            while e < n && text[e] != NEWLINE
                invariant
                    n == text@.len(),
                    i <= e <= n,
                    forall|j: int| i <= j < e ==> text@[j] != NEWLINE,
                decreases n - e,
            {
                e = e + 1;
            }
            return (i, e);
        }
        if i == n - m {
            return (0, 0);
        }
        i = i + 1;
    }
    (0, 0)
}

/// The key span of `pat` in `record`, in bytes; see [`locate`].
pub fn key_pos(pat: &str, record: &str) -> (r: (usize, usize))
    ensures
        key_span(record.spec_bytes(), pat.spec_bytes(), r),
{
    locate(pat.as_bytes(), record.as_bytes())
}

/// The characters of `s`, in order.
fn chars_of(s: &str) -> (r: Vec<char>)
    ensures
        r@ == s@,
{
    let mut out: Vec<char> = Vec::new();
    for c in it: s.chars()
        invariant
            out@ == it.seq().subrange(0, it.index() as int),
    {
        out.push(c);
    }
    out
}

/// Where the line that holds position `p` ends: the first line break at or
/// after `p`, or the end of the text.
pub open spec fn line_end(text: Seq<char>, p: int) -> int
    decreases text.len() - p,
{
    if p >= text.len() || p < 0 {
        text.len() as int
    } else if text[p] == '\n' {
        p
    } else {
        line_end(text, p + 1)
    }
}

/// For each line of `text` from the line starting at `p` on (lines are
/// separated by line breaks), in order: what follows `pat` on the line, for
/// the lines that start with `pat`.
pub open spec fn values_from(text: Seq<char>, pat: Seq<char>, p: int) -> Seq<Seq<char>>
    decreases text.len() - p + 1,
{
    if p < 0 || p > text.len() {
        Seq::empty()
    } else {
        let e = line_end(text, p);
        let rest = if p <= e < text.len() {
            values_from(text, pat, e + 1)
        } else {
            Seq::empty()
        };
        if p + pat.len() <= e && text.subrange(p, p + pat.len()) == pat {
            seq![text.subrange(p + pat.len(), e)] + rest
        } else {
            rest
        }
    }
}

proof fn lemma_line_end(text: Seq<char>, p: int)
    requires
        0 <= p <= text.len(),
    ensures
        p <= line_end(text, p) <= text.len(),
    decreases text.len() - p,
{
    if p < text.len() && text[p] != '\n' {
        lemma_line_end(text, p + 1);
    }
}

/// For every line of `record` that starts with `pat`, what follows `pat` on
/// that line, in order of the lines.
pub fn key_value<'a>(pat: &str, record: &'a str) -> (r: Vec<&'a str>)
    ensures
        r@.map_values(|s: &str| s@) == values_from(record@, pat@, 0),
{
    let text = chars_of(record);
    let p_chars = chars_of(pat);
    let n = text.len();
    let m = p_chars.len();
    let mut out: Vec<&'a str> = Vec::new();
    let mut p: usize = 0;
    let mut more = true;
    while more
        invariant
            text@ == record@,
            p_chars@ == pat@,
            n == text@.len(),
            m == pat@.len(),
            more ==> p <= n,
            out@.map_values(|s: &str| s@) + (if more {
                values_from(record@, pat@, p as int)
            } else {
                Seq::empty()
            }) == values_from(record@, pat@, 0),
        decreases n + 1 - p + (if more {
            1int
        } else {
            0int
        }),
    {
        let ghost prev = out@.map_values(|s: &str| s@);
        let ghost line_start = p as int;
        let mut e: usize = p;
        while e < n && text[e] != '\n'
            invariant
                n == text@.len(),
                p <= e <= n,
                line_end(text@, p as int) == line_end(text@, e as int),
            decreases n - e,
        {
            e = e + 1;
        }
        proof {
            lemma_line_end(text@, p as int);
        }
        let mut starts = m <= e - p;
        let mut k: usize = 0;
        while starts && k < m
            invariant
                m == p_chars@.len(),
                starts ==> p + m <= e <= n,
                n == text@.len(),
                0 <= k <= m,
                starts ==> text@.subrange(p as int, p + k) == p_chars@.subrange(0, k as int),
                !starts ==> !(p + m <= e && text@.subrange(p as int, p + m) == p_chars@),
            decreases m - k + (if starts {
                1int
            } else {
                0int
            }),
        {
            if text[p + k] != p_chars[k] {
                assert(text@.subrange(p as int, p + m)[k as int] != p_chars@[k as int]);
                starts = false;
            } else {
                k = k + 1;
                assert(text@.subrange(p as int, p + k) =~= p_chars@.subrange(0, k as int));
            }
        }
        if starts {
            assert(p_chars@.subrange(0, m as int) =~= p_chars@);
            let v = record.substring_char(p + m, e);
            out.push(v);
            assert(out@.map_values(|s: &str| s@) =~= prev.push(v@));
        }
        if e < n {
            p = e + 1;
        } else {
            more = false;
        }
        proof {
            let rest = if e < n {
                values_from(record@, pat@, e + 1)
            } else {
                Seq::<Seq<char>>::empty()
            };
            assert(line_end(text@, line_start) == e);
            if starts {
                assert(prev.push(text@.subrange(line_start + m, e as int)) + rest =~= prev + (seq![
                    text@.subrange(line_start + m, e as int),
                ] + rest));
            }
        }
    }
    assert(out@.map_values(|s: &str| s@) + Seq::<Seq<char>>::empty() =~= out@.map_values(
        |s: &str| s@,
    ));
    out
}

impl RawRecord {
    /// A record of the given raw bytes, with the key spans that the primary
    /// and secondary key patterns introduce in them.
    pub fn with_keys(raw_record: Vec<u8>, primary_key_pat: &[u8], secondary_key_pat: &[u8]) -> (r:
        RawRecord)
        ensures
            r@.text == raw_record@,
            r@.keys.len() == 2,
            key_span(raw_record@, primary_key_pat@, r@.keys[0]),
            key_span(raw_record@, secondary_key_pat@, r@.keys[1]),
            !r@.is_end,
            r@.wf(),
    {
        let primary = locate(primary_key_pat, raw_record.as_slice());
        let secondary = locate(secondary_key_pat, raw_record.as_slice());
        let mut key_pos: Vec<(usize, usize)> = Vec::new();
        key_pos.push(primary);
        key_pos.push(secondary);
        let r = RawRecord { raw_record, key_pos, record_end: false };
        assert forall|k: int| 0 <= k < 2 implies (#[trigger] r@.keys[k]).0 <= r@.keys[k].1
            <= r@.text.len() by {
            if k == 0 {
            } else {
            }
        }
        r
    }
}

} // verus!
