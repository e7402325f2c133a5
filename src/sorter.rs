//! The internal sorter and run writer: sorts one chunk of records in memory
//! and cuts the sorted chunk into segments of bounded size.
use crate::record::{compare_records, models, rec_le, RawRecord, RecordModel};
use crate::segment::{
    encode_ints, encodes, key_map_of, key_quad, lemma_segment_round_trip, offsets_of, push_u64,
    segment_records, storable, text_of, Segment,
};
use rayon::slice::ParallelSliceMut;
use vstd::prelude::*;

verus! {

broadcast use vstd::seq_lib::group_to_multiset_ensures;

/// Relies on rayon's `ParallelSliceMut::par_sort_unstable_by`, which
/// rearranges the slice so that no element compares `Less` than an element
/// before it, provided the comparator is a total order. The comparator is
/// `compare_records`, which follows `rec_cmp`.
#[verifier::external_body]
fn par_sort_records(pool: &mut Vec<RawRecord>)
    requires
        forall|i: int| 0 <= i < old(pool)@.len() ==> (#[trigger] old(pool)@[i])@.wf(),
    ensures
        final(pool)@.to_multiset() == old(pool)@.to_multiset(),
        forall|i: int, j: int|
            0 <= i < j < final(pool)@.len() ==> rec_le(
                (#[trigger] final(pool)@[i])@,
                (#[trigger] final(pool)@[j])@,
            ),
{
    pool.par_sort_unstable_by(|a, b| compare_records(a, b));
}

/// The records of a sequence of segments' record lists, one list after another.
pub open spec fn concat_groups(groups: Seq<Seq<RecordModel>>) -> Seq<RecordModel>
    decreases groups.len(),
{
    if groups.len() == 0 {
        Seq::empty()
    } else {
        concat_groups(groups.drop_last()) + groups.last()
    }
}

/// The records held by each of `segs`, one segment after another.
pub open spec fn run_records(segs: Seq<Segment>) -> Seq<RecordModel> {
    concat_groups(segs.map_values(|s: Segment| segment_records(s)))
}

/// Records in ascending (primary key, secondary key) order.
pub open spec fn sorted(recs: Seq<RecordModel>) -> bool {
    forall|i: int, j: int| 0 <= i < j < recs.len() ==> rec_le(#[trigger] recs[i], #[trigger] recs[j])
}

/// `segs` cut `recs` greedily at `queue_size` bytes: every segment holds at
/// least one record, no more than `queue_size` bytes unless it is a single
/// record, and the first record of each segment would not have fit into the
/// segment before it.
pub open spec fn cut_greedily(segs: Seq<Segment>, queue_size: int) -> bool {
    &&& forall|j: int| 0 <= j < segs.len() ==> #[trigger] segment_records(segs[j]).len() > 0
    &&& forall|j: int|
        0 <= j < segs.len() ==> (#[trigger] segs[j]).raw@.len() <= queue_size || segment_records(
            segs[j],
        ).len() == 1
    &&& forall|j: int|
        0 < j < segs.len() ==> segs[j - 1].raw@.len() + segment_records(
            #[trigger] segs[j],
        )[0].text.len() > queue_size
}

proof fn lemma_encode_push(v: Seq<u64>, x: u64)
    ensures
        encode_ints(v.push(x)) == encode_ints(v) + vstd::bytes::spec_u64_to_le_bytes(x),
{
    assert(v.push(x).drop_last() =~= v);
}

/// Sorts one chunk of records and cuts it into run segments.
///
/// The pool is sorted ascending by primary key bytes, then secondary key
/// bytes. The sorted records are then cut greedily into segments of at most
/// `queue_size` raw bytes (a record larger than that gets a segment of its
/// own), each stored with its offset index and key-position index. Reading
/// the segments back gives the sorted pool.
pub fn internal_pool_sort(pool: &mut Vec<RawRecord>, queue_size: usize) -> (segments:
    Vec<Segment>)
    requires
        storable(models(old(pool)@)),
    ensures
        final(pool)@.to_multiset() == old(pool)@.to_multiset(),
        sorted(models(final(pool)@)),
        run_records(segments@) == models(final(pool)@),
        forall|j: int|
            0 <= j < segments@.len() ==> encodes(
                #[trigger] segments@[j],
                segment_records(segments@[j]),
            ),
        cut_greedily(segments@, queue_size as int),
{
    proof {
        assert forall|i: int| 0 <= i < pool@.len() implies (#[trigger] pool@[i])@.wf() by {
            assert(models(pool@)[i] == pool@[i]@);
        }
    }
    par_sort_records(pool);
    let ghost all = models(pool@);
    proof {
        assert forall|i: int| 0 <= i < all.len() implies (#[trigger] all[i]).wf() && !all[i].is_end by {
            assert(pool@.contains(pool@[i]));
            assert(old(pool)@.to_multiset().count(pool@[i]) > 0);
            let j = choose|j: int| 0 <= j < old(pool)@.len() && old(pool)@[j] == pool@[i];
            assert(models(old(pool)@)[j] == old(pool)@[j]@);
        }
        assert forall|i: int, j: int| 0 <= i < j < all.len() implies rec_le(
            #[trigger] all[i],
            #[trigger] all[j],
        ) by {
            assert(rec_le(pool@[i]@, pool@[j]@));
        }
    }
    let mut segments: Vec<Segment> = Vec::new();
    let ghost mut groups: Seq<Seq<RecordModel>> = Seq::empty();
    let ghost mut cur: Seq<RecordModel> = Seq::empty();
    let mut raw: Vec<u8> = Vec::new();
    let mut offsets: Vec<u8> = Vec::new();
    push_u64(&mut offsets, 0);
    let mut key_map: Vec<u8> = Vec::new();
    let mut size: usize = 0;
    let mut count: usize = 0;
    proof {
        lemma_encode_push(Seq::empty(), 0);
        assert(Seq::<u64>::empty().push(0) =~= offsets_of(cur));
        assert(concat_groups(groups) + cur =~= all.subrange(0, 0));
    }
    let mut i: usize = 0;
    while i < pool.len()
        invariant
            all == models(pool@),
            storable(all),
            0 <= i <= pool@.len(),
            segments@.len() == groups.len(),
            forall|j: int|
                0 <= j < groups.len() ==> encodes(#[trigger] segments@[j], groups[j]) && groups[j].len()
                    > 0 && storable(groups[j]) && (text_of(groups[j]).len() <= queue_size
                    || groups[j].len() == 1),
            forall|j: int|
                0 < j < groups.len() ==> text_of(groups[j - 1]).len() + (#[trigger] groups[j])[0].text.len()
                    > queue_size,
            groups.len() > 0 ==> cur.len() > 0 && text_of(groups.last()).len() + cur[0].text.len()
                > queue_size,
            concat_groups(groups) + cur == all.subrange(0, i as int),
            raw@ == text_of(cur),
            offsets@ == encode_ints(offsets_of(cur)),
            key_map@ == encode_ints(key_map_of(cur)),
            size == text_of(cur).len(),
            count == cur.len(),
            storable(cur),
            text_of(cur).len() <= queue_size || cur.len() <= 1,
        decreases pool@.len() - i,
    {
        let rec = &pool[i];
        let len = rec.raw_record.len();
        if count > 0 && (len > queue_size || size > queue_size - len) {
            let seg = Segment { raw, offsets, key_map };
            let ghost segs0 = segments@;
            segments.push(seg);
            proof {
                assert(encodes(seg, cur));
                assert(text_of(cur).len() + rec.raw_record@.len() > queue_size);
                let prev = groups;
                groups = groups.push(cur);
                assert forall|j: int|
                    0 <= j < groups.len() implies encodes(#[trigger] segments@[j], groups[j])
                        && groups[j].len() > 0 && storable(groups[j]) && (text_of(groups[j]).len()
                        <= queue_size || groups[j].len() == 1) by {
                    if j < prev.len() {
                        assert(segments@[j] == segs0[j]);
                        assert(groups[j] == prev[j]);
                    }
                }
                cur = Seq::empty();
                assert(concat_groups(groups) =~= concat_groups(groups.drop_last()) + groups.last());
                assert(groups.drop_last() =~= prev);
            }
            raw = Vec::new();
            offsets = Vec::new();
            push_u64(&mut offsets, 0);
            key_map = Vec::new();
            size = 0;
            count = 0;
            proof {
                lemma_encode_push(Seq::empty(), 0);
                assert(Seq::<u64>::empty().push(0) =~= offsets_of(cur));
                assert(concat_groups(groups) + cur =~= all.subrange(0, i as int));
            }
        }
        let ghost r = rec@;
        assert(r == all[i as int]);
        let ghost next = cur.push(r);
        assert(next.drop_last() =~= cur);
        assert(cur.len() > 0 ==> next[0] == cur[0]);
        // raw bytes
        let mut b: usize = 0;
        while b < len
            invariant
                len == rec.raw_record@.len(),
                0 <= b <= len,
                raw@ == text_of(cur) + rec.raw_record@.subrange(0, b as int),
            decreases len - b,
        {
            raw.push(rec.raw_record[b]);
            b = b + 1;
            assert(rec.raw_record@.subrange(0, b as int) =~= rec.raw_record@.subrange(0, b - 1).push(
                rec.raw_record@[b - 1],
            ));
            assert(raw@ =~= text_of(cur) + rec.raw_record@.subrange(0, b as int));
        }
        assert(rec.raw_record@.subrange(0, len as int) =~= r.text);
        assert(raw@ =~= text_of(next));
        let base = size;
        size = size + len;
        // offset index
        proof {
            lemma_encode_push(offsets_of(cur), size as u64);
        }
        push_u64(&mut offsets, size as u64);
        // key-position index
        assert(all[i as int].wf());
        assert(r.wf());
        assert(r.keys[0].0 <= r.keys[0].1 <= r.text.len());
        assert(r.keys[1].0 <= r.keys[1].1 <= r.text.len());
        let k0 = rec.key_pos[0];
        let k1 = rec.key_pos[1];
        let ghost km = key_map_of(cur);
        let ghost q = key_quad(r, base as int);
        proof {
            lemma_encode_push(km, q[0]);
            lemma_encode_push(km.push(q[0]), q[1]);
            lemma_encode_push(km.push(q[0]).push(q[1]), q[2]);
            lemma_encode_push(km.push(q[0]).push(q[1]).push(q[2]), q[3]);
            assert(km + q =~= km.push(q[0]).push(q[1]).push(q[2]).push(q[3]));
        }
        push_u64(&mut key_map, (base + k0.0) as u64);
        push_u64(&mut key_map, (base + k0.1) as u64);
        push_u64(&mut key_map, (base + k1.0) as u64);
        push_u64(&mut key_map, (base + k1.1) as u64);
        count = count + 1;
        proof {
            cur = next;
            assert(all.subrange(0, i + 1) =~= all.subrange(0, i as int).push(r));
            assert(concat_groups(groups) + cur =~= all.subrange(0, i + 1));
        }
        i = i + 1;
    }
    if count > 0 {
        let seg = Segment { raw, offsets, key_map };
        segments.push(seg);
        proof {
            let prev = groups;
            groups = groups.push(cur);
            assert(groups.drop_last() =~= prev);
            assert(concat_groups(groups) =~= concat_groups(prev) + cur);
            cur = Seq::empty();
        }
    }
    proof {
        assert(concat_groups(groups) =~= all) by {
            assert(all.subrange(0, pool@.len() as int) =~= all);
        }
        assert forall|j: int| 0 <= j < groups.len() implies #[trigger] segment_records(segments@[j])
            == groups[j] by {
            assert(segments@[j].raw@.len() == segments@[j].raw.len());
            lemma_segment_round_trip(groups[j]);
        }
        assert(segments@.map_values(|s: Segment| segment_records(s)) =~= groups);
    }
    segments
}

} // verus!
