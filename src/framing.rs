//! Cutting the input into records: a record starts at a line that begins
//! with the record-begin pattern and runs up to the next such line.
use vstd::prelude::*;

verus! {

/// `pat` is a prefix of `line`.
pub open spec fn starts_with(line: Seq<u8>, pat: Seq<u8>) -> bool {
    pat.len() <= line.len() && line.subrange(0, pat.len() as int) == pat
}

/// Gathers input lines into records.
pub struct RecordFramer {
    pub begin: Vec<u8>,
    pub current: Vec<u8>,
}

/// Whether `line` begins with `pat`.
fn has_prefix(line: &[u8], pat: &[u8]) -> (r: bool)
    ensures
        r == starts_with(line@, pat@),
{
    if pat.len() > line.len() {
        return false;
    }
    let mut i: usize = 0;
    while i < pat.len()
        invariant
            pat@.len() <= line@.len(),
            0 <= i <= pat@.len(),
            line@.subrange(0, i as int) == pat@.subrange(0, i as int),
        decreases pat@.len() - i,
    {
        if line[i] != pat[i] {
            assert(line@.subrange(0, pat@.len() as int)[i as int] != pat@[i as int]);
            return false;
        }
        i = i + 1;
        assert(line@.subrange(0, i as int) =~= pat@.subrange(0, i as int));
    }
    assert(pat@.subrange(0, pat@.len() as int) =~= pat@);
    true
}

impl RecordFramer {
    /// A framer for records that start at lines beginning with `begin`.
    pub fn new(begin: Vec<u8>) -> (f: RecordFramer)
        ensures
            f.begin@ == begin@,
            f.current@.len() == 0,
    {
        RecordFramer { begin, current: Vec::new() }
    }

    /// Takes the next input line (with its line break, if any). When the
    /// line begins a record and a record is being gathered, that record is
    /// complete and is handed back; the line then starts the next record.
    pub fn feed_line(&mut self, line: &[u8]) -> (r: Option<Vec<u8>>)
        ensures
            final(self).begin == old(self).begin,
            if starts_with(line@, old(self).begin@) && old(self).current@.len() > 0 {
                &&& r matches Some(rec) && rec@ == old(self).current@
                &&& final(self).current@ == line@
            } else {
                &&& r is None
                &&& final(self).current@ == old(self).current@ + line@
            },
    {
        let mut out: Option<Vec<u8>> = None;
        if has_prefix(line, self.begin.as_slice()) && self.current.len() > 0 {
            let mut done: Vec<u8> = Vec::new();
            std::mem::swap(&mut done, &mut self.current);
            out = Some(done);
        }
        let ghost start = self.current@;
        let mut i: usize = 0;
        while i < line.len()
            invariant
                0 <= i <= line@.len(),
                self.begin == old(self).begin,
                self.current@ == start + line@.subrange(0, i as int),
            decreases line@.len() - i,
        {
            self.current.push(line[i]);
            i = i + 1;
            assert(self.current@ =~= start + line@.subrange(0, i as int));
        }
        assert(line@.subrange(0, line@.len() as int) =~= line@);
        assert(start + Seq::<u8>::empty() =~= start);
        out
    }

    /// The record being gathered when the input ends, if it is not empty.
    pub fn finish(self) -> (r: Option<Vec<u8>>)
        ensures
            self.current@.len() == 0 ==> r is None,
            self.current@.len() > 0 ==> (r matches Some(rec) && rec@ == self.current@),
    {
        if self.current.len() == 0 {
            None
        } else {
            Some(self.current)
        }
    }
}

} // verus!
