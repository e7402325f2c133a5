//! The stored form of a run segment, and its encoding and decoding.
//!
//! A segment is three byte strings: the raw bytes of its records one after
//! another; the offset index, `n + 1` cumulative byte offsets (0 first, the
//! raw length last); and the key-position index, four positions per record
//! (primary start, primary end, secondary start, secondary end) counted from
//! the start of the raw bytes. Both indexes are sequences of 64-bit
//! little-endian unsigned integers.
use crate::record::{RawRecord, RecordModel};
use vstd::bytes::{
    lemma_auto_spec_u64_to_from_le_bytes, spec_u64_from_le_bytes, spec_u64_to_le_bytes,
    u64_from_le_bytes, u64_to_le_bytes,
};
use vstd::prelude::*;
use vstd::slice::slice_subrange;

verus! {

/// One segment of a run, as it is written to and read from storage.
pub struct Segment {
    pub raw: Vec<u8>,
    pub offsets: Vec<u8>,
    pub key_map: Vec<u8>,
}

/// The raw bytes of `recs`, one after another.
pub open spec fn text_of(recs: Seq<RecordModel>) -> Seq<u8>
    decreases recs.len(),
{
    if recs.len() == 0 {
        Seq::empty()
    } else {
        text_of(recs.drop_last()) + recs.last().text
    }
}

/// The offset index of `recs`: 0, then the end of each record.
pub open spec fn offsets_of(recs: Seq<RecordModel>) -> Seq<u64>
    decreases recs.len(),
{
    if recs.len() == 0 {
        seq![0u64]
    } else {
        offsets_of(recs.drop_last()).push(text_of(recs).len() as u64)
    }
}

/// The four stored key positions of record `r` when it starts at byte `base`.
pub open spec fn key_quad(r: RecordModel, base: int) -> Seq<u64> {
    seq![
        (base + r.keys[0].0) as u64,
        (base + r.keys[0].1) as u64,
        (base + r.keys[1].0) as u64,
        (base + r.keys[1].1) as u64,
    ]
}

/// The key-position index of `recs`.
pub open spec fn key_map_of(recs: Seq<RecordModel>) -> Seq<u64>
    decreases recs.len(),
{
    if recs.len() == 0 {
        Seq::empty()
    } else {
        key_map_of(recs.drop_last()) + key_quad(recs.last(), text_of(recs.drop_last()).len() as int)
    }
}

/// Integers as consecutive 8-byte little-endian groups.
pub open spec fn encode_ints(vals: Seq<u64>) -> Seq<u8>
    decreases vals.len(),
{
    if vals.len() == 0 {
        Seq::empty()
    } else {
        encode_ints(vals.drop_last()) + spec_u64_to_le_bytes(vals.last())
    }
}

/// The integers held by the complete 8-byte groups of `bytes`; trailing
/// bytes that do not fill a group are ignored.
pub open spec fn decode_ints(bytes: Seq<u8>) -> Seq<u64> {
    Seq::new(
        (bytes.len() / 8) as nat,
        |i: int| spec_u64_from_le_bytes(bytes.subrange(8 * i, 8 * i + 8)),
    )
}

/// Record `i` of a segment can be decoded: its offsets rise and stay within
/// the raw bytes, and its four key positions exist and lie, in order, within
/// the record.
pub open spec fn good(raw: Seq<u8>, offs: Seq<u64>, keys: Seq<u64>, i: int) -> bool {
    &&& 0 <= i
    &&& i + 1 < offs.len()
    &&& 4 * i + 4 <= keys.len()
    &&& offs[i] <= offs[i + 1] <= raw.len()
    &&& offs[i] <= keys[4 * i] <= keys[4 * i + 1] <= offs[i + 1]
    &&& offs[i] <= keys[4 * i + 2] <= keys[4 * i + 3] <= offs[i + 1]
}

/// Record `i` of a segment, its key spans made relative to the record.
pub open spec fn record_at(raw: Seq<u8>, offs: Seq<u64>, keys: Seq<u64>, i: int) -> RecordModel {
    let base = offs[i] as int;
    RecordModel {
        text: raw.subrange(base, offs[i + 1] as int),
        keys: seq![
            ((keys[4 * i] - base) as usize, (keys[4 * i + 1] - base) as usize),
            ((keys[4 * i + 2] - base) as usize, (keys[4 * i + 3] - base) as usize),
        ],
        is_end: false,
    }
}

/// How many records from record `i` on can be decoded before the first
/// that cannot.
pub open spec fn good_run(raw: Seq<u8>, offs: Seq<u64>, keys: Seq<u64>, i: int) -> nat
    decreases offs.len() - i,
{
    if good(raw, offs, keys, i) {
        1 + good_run(raw, offs, keys, i + 1)
    } else {
        0
    }
}

/// The records that a segment's three byte strings hold: decoding stops at
/// the first record whose offsets or key positions are out of order or out
/// of range.
pub open spec fn decode_segment(raw: Seq<u8>, offsets: Seq<u8>, key_map: Seq<u8>) -> Seq<
    RecordModel,
> {
    let offs = decode_ints(offsets);
    let keys = decode_ints(key_map);
    Seq::new(good_run(raw, offs, keys, 0), |i: int| record_at(raw, offs, keys, i))
}

/// The records held by a segment.
pub open spec fn segment_records(s: Segment) -> Seq<RecordModel> {
    decode_segment(s.raw@, s.offsets@, s.key_map@)
}

/// The segment holds exactly the encoding of `recs`.
pub open spec fn encodes(s: Segment, recs: Seq<RecordModel>) -> bool {
    &&& s.raw@ == text_of(recs)
    &&& s.offsets@ == encode_ints(offsets_of(recs))
    &&& s.key_map@ == encode_ints(key_map_of(recs))
}

/// Records that a segment can hold: real records with well-formed key spans.
pub open spec fn storable(recs: Seq<RecordModel>) -> bool {
    forall|i: int| 0 <= i < recs.len() ==> (#[trigger] recs[i]).wf() && !recs[i].is_end
}

proof fn lemma_encode_ints(vals: Seq<u64>)
    ensures
        encode_ints(vals).len() == 8 * vals.len(),
        forall|i: int|
            0 <= i < vals.len() ==> encode_ints(vals).subrange(8 * i, 8 * i + 8)
                == spec_u64_to_le_bytes(#[trigger] vals[i]),
    decreases vals.len(),
{
    lemma_auto_spec_u64_to_from_le_bytes();
    if vals.len() > 0 {
        let init = vals.drop_last();
        lemma_encode_ints(init);
        let e = encode_ints(vals);
        assert forall|i: int| 0 <= i < vals.len() implies e.subrange(8 * i, 8 * i + 8)
            == spec_u64_to_le_bytes(#[trigger] vals[i]) by {
            if i < init.len() {
                assert(init[i] == vals[i]);
                assert(e.subrange(8 * i, 8 * i + 8) =~= encode_ints(init).subrange(8 * i, 8 * i + 8));
            } else {
                assert(e.subrange(8 * i, 8 * i + 8) =~= spec_u64_to_le_bytes(vals.last()));
            }
        }
    }
}

/// Decoding the encoding of a sequence of integers gives it back.
pub proof fn lemma_ints_round_trip(vals: Seq<u64>)
    ensures
        decode_ints(encode_ints(vals)) == vals,
{
    lemma_encode_ints(vals);
    lemma_auto_spec_u64_to_from_le_bytes();
    let e = encode_ints(vals);
    assert((8 * vals.len()) / 8 == vals.len());
    assert forall|i: int| 0 <= i < vals.len() implies #[trigger] decode_ints(e)[i] == vals[i] by {
        assert(e.subrange(8 * i, 8 * i + 8) == spec_u64_to_le_bytes(vals[i]));
    }
    assert(decode_ints(e) =~= vals);
}

proof fn lemma_text_of_append(a: Seq<RecordModel>, b: Seq<RecordModel>)
    ensures
        text_of(a + b) == text_of(a) + text_of(b),
    decreases b.len(),
{
    if b.len() == 0 {
        assert(a + b =~= a);
        assert(text_of(b) =~= Seq::<u8>::empty());
        assert(text_of(a) + text_of(b) =~= text_of(a));
    } else {
        assert((a + b).drop_last() =~= a + b.drop_last());
        lemma_text_of_append(a, b.drop_last());
        assert(text_of(a) + text_of(b) =~= text_of(a) + text_of(b.drop_last()) + b.last().text);
    }
}

/// Where record `i` starts in the raw bytes.
pub open spec fn start_of(recs: Seq<RecordModel>, i: int) -> int {
    text_of(recs.subrange(0, i)).len() as int
}

proof fn lemma_record_in_text(recs: Seq<RecordModel>, i: int)
    requires
        0 <= i < recs.len(),
    ensures
        start_of(recs, i + 1) == start_of(recs, i) + recs[i].text.len(),
        start_of(recs, i + 1) <= text_of(recs).len(),
        text_of(recs).subrange(start_of(recs, i), start_of(recs, i + 1)) == recs[i].text,
{
    let a = recs.subrange(0, i);
    let b = recs.subrange(i + 1, recs.len() as int);
    assert(recs.subrange(0, i + 1) =~= a.push(recs[i]));
    assert(recs.subrange(0, i + 1).drop_last() =~= a);
    assert(recs =~= recs.subrange(0, i + 1) + b);
    lemma_text_of_append(recs.subrange(0, i + 1), b);
}

proof fn lemma_offsets_of(recs: Seq<RecordModel>)
    requires
        text_of(recs).len() <= u64::MAX,
    ensures
        offsets_of(recs).len() == recs.len() + 1,
        forall|i: int| 0 <= i <= recs.len() ==> #[trigger] offsets_of(recs)[i] == start_of(recs, i),
    decreases recs.len(),
{
    assert(recs.subrange(0, 0) =~= Seq::<RecordModel>::empty());
    if recs.len() > 0 {
        let init = recs.drop_last();
        lemma_text_of_append(init, seq![recs.last()]);
        assert(init + seq![recs.last()] =~= recs);
        lemma_offsets_of(init);
        assert forall|i: int| 0 <= i <= recs.len() implies #[trigger] offsets_of(recs)[i]
            == start_of(recs, i) by {
            if i < recs.len() {
                assert(recs.subrange(0, i) =~= init.subrange(0, i));
                lemma_record_in_text(recs, i);
            } else {
                assert(recs.subrange(0, i) =~= recs);
            }
        }
    }
}

proof fn lemma_key_map_of(recs: Seq<RecordModel>)
    requires
        text_of(recs).len() <= u64::MAX,
        storable(recs),
    ensures
        key_map_of(recs).len() == 4 * recs.len(),
        forall|i: int|
            0 <= i < recs.len() ==> #[trigger] key_map_of(recs).subrange(4 * i, 4 * i + 4)
                == key_quad(recs[i], start_of(recs, i)),
    decreases recs.len(),
{
    if recs.len() > 0 {
        let init = recs.drop_last();
        lemma_key_map_of(init);
        lemma_text_of_append(init, seq![recs.last()]);
        assert(init + seq![recs.last()] =~= recs);
        let m = key_map_of(recs);
        assert forall|i: int| 0 <= i < recs.len() implies #[trigger] m.subrange(4 * i, 4 * i + 4)
            == key_quad(recs[i], start_of(recs, i)) by {
            if i < init.len() {
                assert(recs.subrange(0, i) =~= init.subrange(0, i));
                assert(init[i] == recs[i]);
                assert(m.subrange(4 * i, 4 * i + 4) =~= key_map_of(init).subrange(4 * i, 4 * i + 4));
            } else {
                assert(recs.subrange(0, i) =~= init);
                assert(m.subrange(4 * i, 4 * i + 4) =~= key_quad(
                    recs.last(),
                    text_of(init).len() as int,
                ));
            }
        }
    }
}

/// Reading back what was written: decoding the encoding of storable
/// records gives back the same records, raw bytes and key spans alike, in
/// the same order.
pub proof fn lemma_segment_round_trip(recs: Seq<RecordModel>)
    requires
        storable(recs),
        text_of(recs).len() <= u64::MAX,
    ensures
        decode_segment(
            text_of(recs),
            encode_ints(offsets_of(recs)),
            encode_ints(key_map_of(recs)),
        ) == recs,
{
    let raw = text_of(recs);
    let offs = offsets_of(recs);
    let keys = key_map_of(recs);
    lemma_ints_round_trip(offs);
    lemma_ints_round_trip(keys);
    lemma_offsets_of(recs);
    lemma_key_map_of(recs);
    let n = recs.len() as int;
    assert forall|i: int| 0 <= i < n implies good(raw, offs, keys, i) && record_at(
        raw,
        offs,
        keys,
        i,
    ) == recs[i] by {
        lemma_record_in_text(recs, i);
        assert(offs[i] == start_of(recs, i));
        assert(offs[i + 1] == start_of(recs, i + 1));
        let q = keys.subrange(4 * i, 4 * i + 4);
        assert(q == key_quad(recs[i], start_of(recs, i)));
        assert(keys[4 * i] == q[0]);
        assert(keys[4 * i + 1] == q[1]);
        assert(keys[4 * i + 2] == q[2]);
        assert(keys[4 * i + 3] == q[3]);
        assert(recs[i].wf());
        assert(recs[i].keys[0].0 <= recs[i].keys[0].1 <= recs[i].text.len());
        assert(recs[i].keys[1].0 <= recs[i].keys[1].1 <= recs[i].text.len());
        let r = record_at(raw, offs, keys, i);
        assert(r.keys =~= recs[i].keys);
    }
    lemma_good_run_all(raw, offs, keys, n, 0);
    assert(decode_segment(raw, encode_ints(offs), encode_ints(keys)) =~= recs);
}

proof fn lemma_good_run_all(raw: Seq<u8>, offs: Seq<u64>, keys: Seq<u64>, n: int, i: int)
    requires
        0 <= i <= n,
        offs.len() == n + 1,
        forall|j: int| 0 <= j < n ==> #[trigger] good(raw, offs, keys, j),
    ensures
        good_run(raw, offs, keys, i) == n - i,
    decreases n - i,
{
    if i < n {
        lemma_good_run_all(raw, offs, keys, n, i + 1);
    }
}

/// Appends the 8-byte little-endian encoding of `x` to `out`.
pub(crate) fn push_u64(out: &mut Vec<u8>, x: u64)
    ensures
        final(out)@ == old(out)@ + spec_u64_to_le_bytes(x),
{
    let bytes = u64_to_le_bytes(x);
    let mut i: usize = 0;
    while i < 8
        invariant
            bytes@ == spec_u64_to_le_bytes(x),
            bytes@.len() == 8,
            0 <= i <= 8,
            out@ == old(out)@ + bytes@.subrange(0, i as int),
        decreases 8 - i,
    {
        out.push(bytes[i]);
        i = i + 1;
        assert(bytes@.subrange(0, i as int) =~= bytes@.subrange(0, i - 1).push(bytes@[i - 1]));
    }
    assert(bytes@.subrange(0, 8) =~= bytes@);
}

/// The integers held by the complete 8-byte groups of `bytes`.
pub(crate) fn decode_u64s(bytes: &Vec<u8>) -> (r: Vec<u64>)
    ensures
        r@ == decode_ints(bytes@),
{
    let n = bytes.len() / 8;
    let mut r: Vec<u64> = Vec::new();
    let mut i: usize = 0;
    while i < n
        invariant
            n == bytes.len() / 8,
            0 <= i <= n,
            r@ == decode_ints(bytes@).subrange(0, i as int),
        decreases n - i,
    {
        let chunk = slice_subrange(bytes.as_slice(), 8 * i, 8 * i + 8);
        let x = u64_from_le_bytes(chunk);
        r.push(x);
        i = i + 1;
        assert(r@ =~= decode_ints(bytes@).subrange(0, i as int));
    }
    assert(decode_ints(bytes@).subrange(0, n as int) =~= decode_ints(bytes@));
    r
}

/// Whatever a segment that fits in memory holds, the records decoded from it are storable.
pub proof fn lemma_decoded_storable(raw: Seq<u8>, offsets: Seq<u8>, key_map: Seq<u8>)
    requires
        raw.len() <= usize::MAX,
    ensures
        storable(decode_segment(raw, offsets, key_map)),
{
    let offs = decode_ints(offsets);
    let keys = decode_ints(key_map);
    let recs = decode_segment(raw, offsets, key_map);
    assert forall|i: int| 0 <= i < recs.len() implies (#[trigger] recs[i]).wf() && !recs[i].is_end by {
        lemma_good_prefix(raw, offs, keys, 0, i);
        let r = recs[i];
        assert(r.keys[0].0 <= r.keys[0].1 <= r.text.len());
        assert(r.keys[1].0 <= r.keys[1].1 <= r.text.len());
        assert forall|k: int| 0 <= k < 2 implies (#[trigger] r.keys[k]).0 <= r.keys[k].1 <= r.text.len() by {
            if k == 0 {
            } else {
            }
        }
    }
}

/// Every record counted by `good_run` is good.
proof fn lemma_good_prefix(raw: Seq<u8>, offs: Seq<u64>, keys: Seq<u64>, from: int, i: int)
    requires
        0 <= from <= i < from + good_run(raw, offs, keys, from),
    ensures
        good(raw, offs, keys, i),
    decreases i - from,
{
    if i > from {
        lemma_good_prefix(raw, offs, keys, from + 1, i);
    }
}

} // verus!
