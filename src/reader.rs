//! The run reader: a queue of records drawn from one run, refilled one
//! segment at a time.
use crate::record::{models, RawRecord, RecordModel};
use crate::segment::{decode_u64s, good, record_at, segment_records, Segment, good_run};
use std::collections::VecDeque;
use vstd::prelude::*;
use vstd::slice::{slice_subrange, slice_to_vec};

verus! {

/// The records of one run that are in memory, the number of the next
/// segment to load, and whether the run has no further segment.
pub struct Queue {
    pub queue: VecDeque<RawRecord>,
    pub current_chunk: usize,
    pub end_of_record: bool,
}

impl Queue {
    /// The records in the queue, front first.
    pub open spec fn records(&self) -> Seq<RecordModel> {
        models(self.queue@)
    }

    /// The queue is drained and its run may still have segments to load.
    pub open spec fn wants_segment(&self) -> bool {
        self.queue@.len() == 0 && !self.end_of_record
    }

    /// An empty queue at the start of its run.
    pub fn new_queue() -> (q: Queue)
        ensures
            q.queue@.len() == 0,
            q.current_chunk == 0,
            !q.end_of_record,
    {
        Queue { queue: VecDeque::new(), current_chunk: 0, end_of_record: false }
    }

    /// Whether the queue is drained and its run may still have segments.
    pub fn needs_segment(&self) -> (r: bool)
        ensures
            r == self.wants_segment(),
    {
        self.queue.len() == 0 && !self.end_of_record
    }
}

/// Whether record `i` of a segment can be decoded.
fn is_good(raw: &Vec<u8>, offs: &Vec<u64>, keys: &Vec<u64>, i: usize) -> (r: bool)
    ensures
        r == good(raw@, offs@, keys@, i as int),
{
    if offs.len() == 0 || i >= offs.len() - 1 || i >= keys.len() / 4 {
        return false;
    }
    let lo = offs[i];
    let hi = offs[i + 1];
    let k = 4 * i;
    lo <= hi && hi <= raw.len() as u64 && lo <= keys[k] && keys[k] <= keys[k + 1] && keys[k + 1]
        <= hi && lo <= keys[k + 2] && keys[k + 2] <= keys[k + 3] && keys[k + 3] <= hi
}

/// Appends the records of `seg` to `out`, in stored order.
fn decode_into(out: &mut VecDeque<RawRecord>, seg: &Segment)
    ensures
        models(final(out)@) == models(old(out)@) + segment_records(*seg),
{
    let offs = decode_u64s(&seg.offsets);
    let keys = decode_u64s(&seg.key_map);
    let ghost raw = seg.raw@;
    let ghost start = models(out@);
    let mut i: usize = 0;
    let mut ok = is_good(&seg.raw, &offs, &keys, 0);
    while ok
        invariant
            ok == good(raw, offs@, keys@, i as int),
            raw == seg.raw@,
            offs@ == crate::segment::decode_ints(seg.offsets@),
            keys@ == crate::segment::decode_ints(seg.key_map@),
            i <= offs@.len(),
            good_run(raw, offs@, keys@, 0) == i + good_run(raw, offs@, keys@, i as int),
            models(out@) == start + Seq::new(i as nat, |j: int| record_at(raw, offs@, keys@, j)),
        decreases offs@.len() - i,
    {
        assert(good(raw, offs@, keys@, i as int));
        assert(i + 1 < offs@.len());
        assert(offs@.len() == offs.len());
        assert(keys@.len() == keys.len());
        assert(raw.len() == seg.raw.len());
        let lo = offs[i] as usize;
        let hi = offs[i + 1] as usize;
        let text = slice_to_vec(slice_subrange(seg.raw.as_slice(), lo, hi));
        let k = 4 * i;
        let mut key_pos: Vec<(usize, usize)> = Vec::new();
        key_pos.push(((keys[k] as usize) - lo, (keys[k + 1] as usize) - lo));
        key_pos.push(((keys[k + 2] as usize) - lo, (keys[k + 3] as usize) - lo));
        let rec = RawRecord { raw_record: text, key_pos, record_end: false };
        assert(rec@.keys =~= record_at(raw, offs@, keys@, i as int).keys);
        assert(rec@ == record_at(raw, offs@, keys@, i as int));
        let ghost before = out@;
        out.push_back(rec);
        proof {
            assert(models(out@) =~= models(before).push(rec@));
        }
        i = i + 1;
        ok = is_good(&seg.raw, &offs, &keys, i);
        assert(models(out@) =~= start + Seq::new(i as nat, |j: int| record_at(raw, offs@, keys@, j)));
    }
    assert(Seq::new(i as nat, |j: int| record_at(raw, offs@, keys@, j)) =~= segment_records(*seg));
}

/// Refills a drained queue from the next segment of its run.
///
/// A queue that still holds records, or whose run is over, is left as it
/// is. Otherwise `segment` is what was found for segment number
/// `current_chunk` of the run: `None` when it does not exist, which ends the
/// run; else its records are appended and the queue moves to the next
/// segment.
pub fn fill_the_queue(queue: &mut Queue, segment: Option<&Segment>)
    requires
        old(queue).wants_segment() && segment is Some ==> old(queue).current_chunk < usize::MAX,
    ensures
        !old(queue).wants_segment() ==> *final(queue) == *old(queue),
        old(queue).wants_segment() && segment is None ==> final(queue).end_of_record
            && final(queue).queue@ == old(queue).queue@ && final(queue).current_chunk == old(
            queue,
        ).current_chunk,
        old(queue).wants_segment() && segment is Some ==> !final(queue).end_of_record
            && final(queue).records() == segment_records(*segment->Some_0)
            && final(queue).current_chunk == old(queue).current_chunk + 1,
{
    if !queue.needs_segment() {
        return;
    }
    match segment {
        None => {
            queue.end_of_record = true;
        },
        Some(seg) => {
            decode_into(&mut queue.queue, seg);
            queue.current_chunk = queue.current_chunk + 1;
            assert(models(old(queue).queue@) =~= Seq::<RecordModel>::empty());
        },
    }
}

} // verus!
