//! Records, their key spans, and the order in which they are sorted.
use crate::order::{
    compare_spans, lemma_lex_cmp_antisymmetric, lemma_lex_cmp_transitive,
    lemma_lex_cmp_zero_iff_equal, lex_cmp, ordering_of,
};
use std::cmp::Ordering;
use vstd::prelude::*;

verus! {

/// One record: its raw bytes, the byte span of its primary key
/// (`key_pos[0]`) and of its secondary key (`key_pos[1]`), each as
/// (start, end) into `raw_record`, and `record_end`, set only on the
/// terminator that stands for "no more records".
pub struct RawRecord {
    pub raw_record: Vec<u8>,
    pub key_pos: Vec<(usize, usize)>,
    pub record_end: bool,
}

/// What a record is, mathematically.
pub struct RecordModel {
    pub text: Seq<u8>,
    pub keys: Seq<(usize, usize)>,
    pub is_end: bool,
}

impl View for RawRecord {
    type V = RecordModel;

    open spec fn view(&self) -> RecordModel {
        RecordModel { text: self.raw_record@, keys: self.key_pos@, is_end: self.record_end }
    }
}

impl RecordModel {
    /// Two key spans, each within the text.
    pub open spec fn wf(self) -> bool {
        &&& self.keys.len() == 2
        &&& forall|k: int|
            0 <= k < 2 ==> (#[trigger] self.keys[k]).0 <= self.keys[k].1 <= self.text.len()
    }

    /// The bytes of key `k` (0 primary, 1 secondary).
    pub open spec fn key(self, k: int) -> Seq<u8> {
        self.text.subrange(self.keys[k].0 as int, self.keys[k].1 as int)
    }
}

/// The models of a sequence of records.
pub open spec fn models(q: Seq<RawRecord>) -> Seq<RecordModel> {
    q.map_values(|r: RawRecord| r@)
}

/// Three-way comparison of two records: by primary key bytes, then by
/// secondary key bytes.
pub open spec fn rec_cmp(x: RecordModel, y: RecordModel) -> int {
    let p = lex_cmp(x.key(0), y.key(0));
    if p != 0 {
        p
    } else {
        lex_cmp(x.key(1), y.key(1))
    }
}

/// `x` may come before `y` in sorted output.
pub open spec fn rec_le(x: RecordModel, y: RecordModel) -> bool {
    rec_cmp(x, y) <= 0
}

/// Swapping the records negates the comparison.
pub proof fn lemma_rec_cmp_antisymmetric(x: RecordModel, y: RecordModel)
    ensures
        rec_cmp(x, y) == -rec_cmp(y, x),
        -1 <= rec_cmp(x, y) <= 1,
{
    lemma_lex_cmp_antisymmetric(x.key(0), y.key(0));
    lemma_lex_cmp_antisymmetric(x.key(1), y.key(1));
}

/// Records that compare equal have equal keys, so they compare alike with
/// every third record.
pub proof fn lemma_rec_cmp_equal_keys(x: RecordModel, y: RecordModel, z: RecordModel)
    requires
        rec_cmp(x, y) == 0,
    ensures
        rec_cmp(x, z) == rec_cmp(y, z),
        rec_cmp(z, x) == rec_cmp(z, y),
{
    lemma_lex_cmp_zero_iff_equal(x.key(0), y.key(0));
    lemma_lex_cmp_zero_iff_equal(x.key(1), y.key(1));
}

/// The record order is transitive.
pub proof fn lemma_rec_le_transitive(x: RecordModel, y: RecordModel, z: RecordModel)
    requires
        rec_le(x, y),
        rec_le(y, z),
    ensures
        rec_le(x, z),
{
    let (x0, y0, z0) = (x.key(0), y.key(0), z.key(0));
    let (x1, y1, z1) = (x.key(1), y.key(1), z.key(1));
    lemma_lex_cmp_zero_iff_equal(x0, y0);
    lemma_lex_cmp_zero_iff_equal(y0, z0);
    lemma_lex_cmp_zero_iff_equal(x0, z0);
    lemma_lex_cmp_antisymmetric(x0, y0);
    lemma_lex_cmp_antisymmetric(y0, z0);
    lemma_lex_cmp_antisymmetric(x0, z0);
    lemma_lex_cmp_transitive(x0, y0, z0);
    if lex_cmp(x0, y0) == 0 && lex_cmp(y0, z0) == 0 {
        lemma_lex_cmp_transitive(x1, y1, z1);
    }
}

/// A strict step followed by a non-strict one is strict.
pub proof fn lemma_rec_lt_le_transitive(x: RecordModel, y: RecordModel, z: RecordModel)
    requires
        rec_cmp(x, y) < 0,
        rec_le(y, z),
    ensures
        rec_cmp(x, z) < 0,
{
    lemma_rec_le_transitive(x, y, z);
    if rec_cmp(x, z) == 0 {
        lemma_rec_cmp_equal_keys(x, z, y);
        lemma_rec_cmp_antisymmetric(y, z);
    }
}

impl RawRecord {
    /// The terminator: an empty record with `record_end` set, which sorts
    /// after every real record.
    pub fn new_raw_record() -> (r: RawRecord)
        ensures
            r@.text.len() == 0,
            r@.keys == seq![(0usize, 0usize), (0usize, 0usize)],
            r@.is_end,
            r@.wf(),
    {
        let mut key_pos: Vec<(usize, usize)> = Vec::new();
        key_pos.push((0, 0));
        key_pos.push((0, 0));
        RawRecord { raw_record: Vec::new(), key_pos, record_end: true }
    }

    /// A copy of this record.
    pub fn duplicate(&self) -> (r: RawRecord)
        ensures
            r@ == self@,
    {
        let raw_record = self.raw_record.clone();
        assert(raw_record@ =~= self.raw_record@);
        let mut key_pos: Vec<(usize, usize)> = Vec::new();
        let mut i: usize = 0;
        while i < self.key_pos.len()
            invariant
                i <= self.key_pos.len(),
                key_pos@ =~= self.key_pos@.subrange(0, i as int),
            decreases self.key_pos.len() - i,
        {
            key_pos.push(self.key_pos[i]);
            i = i + 1;
        }
        assert(key_pos@ =~= self.key_pos@);
        RawRecord { raw_record, key_pos, record_end: self.record_end }
    }
}

/// Compares two records by primary key bytes, then secondary key bytes.
pub fn compare_records(a: &RawRecord, b: &RawRecord) -> (r: Ordering)
    requires
        a@.wf(),
        b@.wf(),
    ensures
        r == ordering_of(rec_cmp(a@, b@)),
{
    let primary = compare_spans(
        &a.raw_record,
        a.key_pos[0].0,
        a.key_pos[0].1,
        &b.raw_record,
        b.key_pos[0].0,
        b.key_pos[0].1,
    );
    match primary {
        Ordering::Equal => compare_spans(
            &a.raw_record,
            a.key_pos[1].0,
            a.key_pos[1].1,
            &b.raw_record,
            b.key_pos[1].0,
            b.key_pos[1].1,
        ),
        other => other,
    }
}

} // verus!
