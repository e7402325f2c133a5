//! The merge orchestrator: a k-way merge of sorted runs through the
//! tournament tree, as a state machine. The caller loads segments when asked
//! to and writes out the records it is handed.
use crate::reader::{fill_the_queue, Queue};
use crate::record::{
    compare_records, lemma_rec_cmp_antisymmetric, lemma_rec_le_transitive, models, rec_le,
    RawRecord, RecordModel,
};
use crate::segment::{lemma_decoded_storable, segment_records, storable, Segment};
use crate::sorter::sorted;
use crate::tournament::{
    first, is_power_of_two, is_pow2, is_winner, lemma_node_range, lemma_node_winner_local, live, node_winner,
    on_path, precedes, tree_ok, width, winner_tree_by_idx, InternalNode,
};
use std::cmp::Ordering;
use std::collections::VecDeque;
use vstd::multiset::Multiset;
use vstd::prelude::*;

verus! {

broadcast use {vstd::seq_lib::group_to_multiset_ensures, vstd::multiset::group_multiset_axioms};

/// What the caller is to do next.
pub enum MergeStep {
    /// Load segment `segment` of run `run` and hand it to `deliver`
    /// (`None` when that segment does not exist).
    Load { run: usize, segment: usize },
    /// Append this record to the sorted output.
    Emit(RawRecord),
    /// Every run is exhausted: the output is complete.
    Done,
}

/// Why the merge cannot go on.
#[derive(Clone, Copy, Debug, PartialEq, Eq)]
pub enum MergeError {
    /// The number of runs is not a power of two (or leaves no room for the
    /// terminator slot).
    BadRunCount,
    /// A segment was delivered for a run that does not exist.
    NoSuchRun,
    /// A run has more segments than can be numbered.
    TooManySegments,
    /// A delivered segment is not sorted, or sorts before what its run has
    /// already delivered.
    OutOfOrder,
}

/// The merge state: one queue and one candidate slot per run, the
/// terminator slot, the tournament tree, and the last record emitted.
pub struct Merger {
    pub queues: Vec<Queue>,
    pub external_node: Vec<Option<RawRecord>>,
    pub internal_node: Vec<InternalNode>,
    pub last: Option<RawRecord>,
    /// Every record emitted so far, in order.
    pub emitted: Ghost<Seq<RecordModel>>,
    /// Every record delivered so far.
    pub delivered: Ghost<Seq<RecordModel>>,
    /// For each run, the records it has delivered so far, in order.
    pub given: Ghost<Seq<Seq<RecordModel>>>,
}

/// What run `i` holds in memory: its candidate and its queue.
pub open spec fn part(ext: Seq<Option<RawRecord>>, qs: Seq<Queue>, i: int) -> Multiset<RecordModel> {
    (if ext[i] is Some {
        Multiset::singleton(ext[i]->Some_0@)
    } else {
        Multiset::empty()
    }).add(qs[i].records().to_multiset())
}

/// What runs `0 .. n` hold in memory.
pub open spec fn held(ext: Seq<Option<RawRecord>>, qs: Seq<Queue>, n: int) -> Multiset<RecordModel>
    decreases n,
{
    if n <= 0 {
        Multiset::empty()
    } else {
        held(ext, qs, n - 1).add(part(ext, qs, n - 1))
    }
}

proof fn lemma_held_update(
    e1: Seq<Option<RawRecord>>,
    q1: Seq<Queue>,
    e2: Seq<Option<RawRecord>>,
    q2: Seq<Queue>,
    n: int,
    i: int,
)
    requires
        0 <= i < n,
        forall|j: int| 0 <= j < n && j != i ==> part(e1, q1, j) == part(e2, q2, j),
    ensures
        held(e2, q2, n).add(part(e1, q1, i)) == held(e1, q1, n).add(part(e2, q2, i)),
    decreases n,
{
    assert(held(e2, q2, n) == held(e2, q2, n - 1).add(part(e2, q2, n - 1)));
    assert(held(e1, q1, n) == held(e1, q1, n - 1).add(part(e1, q1, n - 1)));
    if n - 1 == i {
        lemma_held_same(e1, q1, e2, q2, n - 1);
        assert(held(e2, q2, n).add(part(e1, q1, i)) =~= held(e1, q1, n).add(part(e2, q2, i)));
    } else {
        lemma_held_update(e1, q1, e2, q2, n - 1, i);
        assert(part(e1, q1, n - 1) == part(e2, q2, n - 1));
        let (a, b, p) = (held(e2, q2, n - 1), held(e1, q1, n - 1), part(e1, q1, n - 1));
        let (part_a, part_b) = (part(e1, q1, i), part(e2, q2, i));
        assert forall|x: RecordModel| #[trigger] a.add(p).add(part_a).count(x) == b.add(p).add(part_b).count(x) by {
            assert(a.add(part_a).count(x) == b.add(part_b).count(x));
        }
        assert(held(e2, q2, n).add(part(e1, q1, i)) =~= held(e1, q1, n).add(part(e2, q2, i)));
    }
}

proof fn lemma_held_same(e1: Seq<Option<RawRecord>>, q1: Seq<Queue>, e2: Seq<Option<RawRecord>>, q2: Seq<Queue>, n: int)
    requires
        forall|j: int| 0 <= j < n ==> part(e1, q1, j) == part(e2, q2, j),
    ensures
        held(e1, q1, n) == held(e2, q2, n),
    decreases n,
{
    if n > 0 {
        lemma_held_same(e1, q1, e2, q2, n - 1);
    }
}

proof fn lemma_held_empty(ext: Seq<Option<RawRecord>>, qs: Seq<Queue>, n: int)
    requires
        forall|j: int| 0 <= j < n ==> (#[trigger] ext[j]) is None,
        forall|j: int| 0 <= j < n ==> (#[trigger] qs[j]).queue@.len() == 0,
    ensures
        held(ext, qs, n) == Multiset::<RecordModel>::empty(),
    decreases n,
{
    if n > 0 {
        lemma_held_empty(ext, qs, n - 1);
        assert(qs[n - 1].records() =~= Seq::<RecordModel>::empty());
        assert(held(ext, qs, n) =~= Multiset::<RecordModel>::empty());
    }
}

impl Merger {
    /// The number of runs.
    pub open spec fn k(&self) -> int {
        self.queues@.len() as int
    }

    /// Run `i` may still supply records: its queue is not both empty and
    /// finished.
    pub open spec fn open_run(&self, i: int) -> bool {
        !(self.queues@[i].queue@.len() == 0 && self.queues@[i].end_of_record)
    }

    /// Everything the runs hold in memory.
    pub open spec fn pending(&self) -> Multiset<RecordModel> {
        held(self.external_node@, self.queues@, self.k())
    }

    /// The merge state is consistent.
    pub open spec fn inv(&self) -> bool {
        let k = self.k();
        let ext = self.external_node@;
        let qs = self.queues@;
        &&& self.internal_node@.len() == k
        &&& k < usize::MAX
        &&& tree_ok(self.internal_node@, ext)
        &&& forall|i: int| 0 <= i < k && ext[i] is Some ==> !ext[i]->Some_0@.is_end
        &&& forall|i: int|
            0 <= i < k ==> storable((#[trigger] qs[i]).records()) && sorted(qs[i].records())
        &&& forall|i: int, j: int|
            0 <= i < k && ext[i] is Some && 0 <= j < qs[i].records().len() ==> rec_le(
                ext[i]->Some_0@,
                #[trigger] qs[i].records()[j],
            )
        &&& forall|i: int, j: int|
            0 <= i < k && ext[i] is None && self.last is Some && 0 <= j
                < qs[i].records().len() ==> rec_le(
                self.last->Some_0@,
                #[trigger] qs[i].records()[j],
            )
        &&& self.last is Some ==> forall|i: int|
            0 <= i < k && #[trigger] ext[i] is Some ==> rec_le(self.last->Some_0@, ext[i]->Some_0@)
        &&& sorted(self.emitted@)
        &&& (self.last is Some <==> self.emitted@.len() > 0)
        &&& self.last is Some ==> self.last->Some_0@ == self.emitted@.last()
            && self.last->Some_0@.wf()
        &&& forall|n: int, i: int|
            #![trigger self.internal_node@[n], ext[i]]
            1 <= n < k && 0 <= i < k && ext[i] is None && self.open_run(i) && first(k, n) <= i
                < first(k, n) + width(k, n) ==> self.internal_node@[n].ptr is None
        &&& self.emitted@.to_multiset().add(self.pending()) == self.delivered@.to_multiset()
        &&& self.given@.len() == k
        &&& forall|i: int| 0 <= i < k ==> sorted(#[trigger] self.given@[i])
        &&& forall|i: int|
            0 <= i < k && (#[trigger] qs[i]).records().len() > 0 ==> self.given@[i].len() > 0
                && qs[i].records().last() == self.given@[i].last()
        &&& forall|i: int|
            0 <= i < k && (#[trigger] ext[i]) is Some && qs[i].records().len() == 0 ==> self.given@[i].len() > 0
                && ext[i]->Some_0@ == self.given@[i].last()
        &&& forall|i: int|
            0 <= i < k && (#[trigger] qs[i]).wants_segment() && ext[i] is None && self.last is Some
                ==> self.given@[i].len() > 0 && self.last->Some_0@ == self.given@[i].last()
        &&& self.last is Some ==> forall|i: int|
            0 <= i < k && (#[trigger] self.given@[i]).len() == 0 ==> qs[i].end_of_record
        &&& self.last is None ==> forall|i: int|
            0 <= i < k && (#[trigger] self.given@[i]).len() > 0 ==> ext[i] is Some || qs[i].records().len() > 0
    }

    /// A merge over `queue_count` runs, which must be a power of two; every
    /// run starts at its first segment.
    pub fn new(queue_count: usize) -> (r: Result<Merger, MergeError>)
        ensures
            r is Err <==> !is_pow2(queue_count as int) || queue_count == usize::MAX,
            r is Err ==> r == Err::<Merger, MergeError>(MergeError::BadRunCount),
            r matches Ok(m) ==> m.inv() && m.k() == queue_count && m.emitted@.len() == 0
                && m.delivered@.len() == 0 && forall|i: int|
                0 <= i < queue_count ==> (#[trigger] m.queues@[i]).wants_segment()
                && m.queues@[i].current_chunk == 0 && m.given@[i].len() == 0,
    {
        if !is_power_of_two(queue_count) || queue_count == usize::MAX {
            return Err(MergeError::BadRunCount);
        }
        let k = queue_count;
        let mut queues: Vec<Queue> = Vec::new();
        let mut external_node: Vec<Option<RawRecord>> = Vec::new();
        let mut internal_node: Vec<InternalNode> = Vec::new();
        let mut i: usize = 0;
        while i < k
            invariant
                0 <= i <= k,
                queues@.len() == i,
                external_node@.len() == i,
                internal_node@.len() == i,
                forall|j: int|
                    0 <= j < i ==> (#[trigger] queues@[j]).queue@.len() == 0
                        && !queues@[j].end_of_record && queues@[j].current_chunk == 0,
                forall|j: int| 0 <= j < i ==> (#[trigger] external_node@[j]) is None,
                forall|j: int|
                    0 <= j < i ==> (#[trigger] internal_node@[j]).ptr is None && (1 <= j
                        ==> internal_node@[j].is_leaf == (2 * j >= k)),
            decreases k - i,
        {
            queues.push(Queue::new_queue());
            external_node.push(None);
            if i >= 1 && i >= k - i {
                internal_node.push(InternalNode::new_leaf_inode());
            } else {
                internal_node.push(InternalNode::new_non_leaf_inode());
            }
            i = i + 1;
        }
        external_node.push(Some(RawRecord::new_raw_record()));
        let m = Merger {
            queues,
            external_node,
            internal_node,
            last: None,
            emitted: Ghost(Seq::empty()),
            delivered: Ghost(Seq::empty()),
            given: Ghost(Seq::new(k as nat, |i: int| Seq::<RecordModel>::empty())),
        };
        proof {
            lemma_held_empty(m.external_node@, m.queues@, k as int);
            assert(m.external_node@[k as int]->Some_0@.is_end);
            assert(!live(m.external_node@, k as int));
            assert(tree_ok(m.internal_node@, m.external_node@));
            assert(m.internal_node@.len() == m.k());
            assert(m.k() < usize::MAX);
            assert(forall|i: int| 0 <= i < m.k() && m.external_node@[i] is Some ==> !m.external_node@[i]->Some_0@.is_end);
            assert(m.emitted@.to_multiset().add(m.pending()) == m.delivered@.to_multiset());
            assert(sorted(m.emitted@));
            assert(m.emitted@.to_multiset() =~= Multiset::<RecordModel>::empty());
            assert(m.delivered@.to_multiset() =~= Multiset::<RecordModel>::empty());
            assert forall|i: int| 0 <= i < k implies storable((#[trigger] m.queues@[i]).records())
                && sorted(m.queues@[i].records()) by {
                assert(m.queues@[i].records() =~= Seq::<RecordModel>::empty());
            }
        }
        Ok(m)
    }

    /// Moves the front of run `i`'s queue into its empty candidate slot.
    fn seed_slot(&mut self, i: usize)
        requires
            old(self).inv(),
            i < old(self).k(),
            !old(self).queues@[i as int].wants_segment(),
        ensures
            final(self).inv(),
            final(self).k() == old(self).k(),
            final(self).emitted == old(self).emitted,
            final(self).delivered == old(self).delivered,
            final(self).given == old(self).given,
            final(self).last == old(self).last,
            final(self).external_node@[i as int] is Some || !final(self).open_run(i as int),
            final(self).queues@[i as int].current_chunk == old(self).queues@[i as int].current_chunk,
            final(self).queues@[i as int].end_of_record == old(self).queues@[i as int].end_of_record,
            forall|j: int|
                0 <= j < old(self).k() && j != i ==> final(self).external_node@[j] == old(
                    self,
                ).external_node@[j] && final(self).queues@[j] == old(self).queues@[j],
    {
        if self.external_node[i].is_some() {
            return;
        }
        let ghost e1 = self.external_node@;
        let ghost q1 = self.queues@;
        let ghost k = self.k();
        let ghost recs = self.queues@[i as int].records();
        let popped = self.queues[i].queue.pop_front();
        match popped {
            Some(rec) => {
                assert(rec@ == recs[0]);
                self.external_node.set(i, Some(rec));
                proof {
                    let e2 = self.external_node@;
                    let q2 = self.queues@;
                    let rest = q2[i as int].records();
                    assert(rest =~= recs.drop_first());
                    assert(recs =~= seq![recs[0]] + rest);
                    assert(recs.to_multiset() =~= rest.to_multiset().insert(recs[0])) by {
                        assert(recs.remove(0) =~= rest);
                    }
                    assert(part(e1, q1, i as int) =~= part(e2, q2, i as int));
                    assert forall|j: int| 0 <= j < k implies part(e1, q1, j) == part(e2, q2, j) by {
                        if j != i {
                            assert(e1[j] == e2[j]);
                            assert(q1[j] == q2[j]);
                        }
                    }
                    lemma_held_same(e1, q1, e2, q2, k);
                    assert forall|n: int|
                        1 <= n < k && (#[trigger] self.internal_node@[n]).ptr is Some implies self.internal_node@[n].ptr->Some_0
                        == node_winner(e2, k, n) by {
                        assert(e1[i as int] is None);
                        assert(!(first(k, n) <= i < first(k, n) + width(k, n)));
                        lemma_node_range(k, n);
                        assert forall|j: int| first(k, n) <= j < first(k, n) + width(k, n) implies #[trigger] e1[j]
                            == e2[j] by {}
                        lemma_node_winner_local(e1, e2, k, n);
                    }
                    assert(storable(recs));
                    assert(recs[0].wf());
                    assert forall|x: int| 0 <= x < e2.len() && #[trigger] e2[x] is Some implies e2[x]->Some_0@.wf() by {
                        if x != i {
                            assert(e1[x] == e2[x]);
                        }
                    }
                    assert(tree_ok(self.internal_node@, e2));
                    assert forall|a: int, b: int| 0 <= a < b < rest.len() implies rec_le(
                        #[trigger] rest[a],
                        #[trigger] rest[b],
                    ) by {
                        assert(rest[a] == recs[a + 1]);
                        assert(rest[b] == recs[b + 1]);
                    }
                    assert forall|j: int| 0 <= j < rest.len() implies rec_le(
                        recs[0],
                        #[trigger] rest[j],
                    ) by {
                        assert(rest[j] == recs[j + 1]);
                    }
                    assert forall|x: int| 0 <= x < rest.len() implies (#[trigger] rest[x]).wf() && !rest[x].is_end by {
                        assert(rest[x] == recs[x + 1]);
                    }
                    if self.last is Some {
                        assert(rec_le(self.last->Some_0@, recs[0]));
                    }
                }
            },
            None => {
                proof {
                    let e2 = self.external_node@;
                    let q2 = self.queues@;
                    assert forall|j: int| 0 <= j < k implies part(e1, q1, j) == part(e2, q2, j) by {
                        if j == i {
                            assert(q1[j].records() =~= q2[j].records());
                        }
                    }
                    lemma_held_same(e1, q1, e2, q2, k);
                }
            },
        }
        proof {
            let k = self.k();
            let ext = self.external_node@;
            let qs = self.queues@;
            assert(self.internal_node@.len() == k);
            assert(tree_ok(self.internal_node@, ext));
            assert(forall|i: int| 0 <= i < k && ext[i] is Some ==> !ext[i]->Some_0@.is_end);
            assert(forall|i: int|
                0 <= i < k ==> storable((#[trigger] qs[i]).records()) && sorted(qs[i].records()));
            assert(forall|i: int, j: int|
                0 <= i < k && ext[i] is Some && 0 <= j < qs[i].records().len() ==> rec_le(
                    ext[i]->Some_0@,
                    #[trigger] qs[i].records()[j],
                ));
            assert(forall|i: int, j: int|
                0 <= i < k && ext[i] is None && self.last is Some && 0 <= j
                    < qs[i].records().len() ==> rec_le(
                    self.last->Some_0@,
                    #[trigger] qs[i].records()[j],
                ));
            assert(self.last is Some ==> forall|i: int|
                0 <= i < k && #[trigger] ext[i] is Some ==> rec_le(self.last->Some_0@, ext[i]->Some_0@));
            assert(forall|n: int, i: int|
                #![trigger self.internal_node@[n], ext[i]]
                1 <= n < k && 0 <= i < k && ext[i] is None && self.open_run(i) && first(k, n) <= i
                    < first(k, n) + width(k, n) ==> self.internal_node@[n].ptr is None);
            assert(self.emitted@.to_multiset().add(self.pending()) == self.delivered@.to_multiset());
        }
    }

    /// One round of the merge.
    ///
    /// While some run's queue is drained and the run may go on, asks for its
    /// next segment (`Load`) and changes nothing. Otherwise fills every empty
    /// candidate slot from its queue, runs the tournament, and hands out the
    /// winning record (`Emit`), or reports that every run is exhausted
    /// (`Done`).
    pub fn step(&mut self) -> (r: MergeStep)
        requires
            old(self).inv(),
        ensures
            final(self).inv(),
            final(self).k() == old(self).k(),
            final(self).delivered == old(self).delivered,
            final(self).given == old(self).given,
            forall|j: int|
                0 <= j < old(self).k() ==> (#[trigger] final(self).queues@[j]).current_chunk == old(
                    self,
                ).queues@[j].current_chunk && final(self).queues@[j].end_of_record == old(
                    self,
                ).queues@[j].end_of_record,
            r matches MergeStep::Load { run, segment } ==> *final(self) == *old(self) && run < old(
                self,
            ).k() && old(self).queues@[run as int].wants_segment() && segment == old(
                self,
            ).queues@[run as int].current_chunk,
            r matches MergeStep::Emit(rec) ==> final(self).emitted@ == old(self).emitted@.push(rec@)
                && final(self).pending().len() + 1 == old(self).pending().len(),
            r is Done ==> final(self).emitted == old(self).emitted && final(self).pending().len()
                == 0 && forall|i: int| 0 <= i < old(self).k() ==> !final(self).open_run(i),
    {
        match self.run_wanting_segment() {
            Some(run) => {
                return MergeStep::Load { run, segment: self.queues[run].current_chunk };
            },
            None => {},
        }
        let k = self.queues.len();
        let mut i: usize = 0;
        while i < k
            invariant
                self.inv(),
                self.k() == k,
                self.emitted == old(self).emitted,
                self.delivered == old(self).delivered,
                self.given == old(self).given,
                self.last == old(self).last,
                0 <= i <= k,
                forall|j: int|
                    0 <= j < i ==> (#[trigger] self.external_node@[j]) is Some || !self.open_run(j),
                forall|j: int| i <= j < k ==> !(#[trigger] self.queues@[j]).wants_segment(),
                forall|j: int|
                    0 <= j < k ==> (#[trigger] self.queues@[j]).current_chunk == old(
                        self,
                    ).queues@[j].current_chunk && self.queues@[j].end_of_record == old(
                        self,
                    ).queues@[j].end_of_record,
            decreases k - i,
        {
            self.seed_slot(i);
            i = i + 1;
        }
        let ghost e1 = self.external_node@;
        let ghost qs = self.queues@;
        let ghost n1 = self.internal_node@;
        let top = winner_tree_by_idx(&mut self.internal_node, &self.external_node);
        proof {
            assert forall|i: int| 0 <= i < k implies (#[trigger] e1[i]) is Some <==> live(e1, i) by {}
        }
        if top == k {
            proof {
                assert forall|j: int| 0 <= j < k implies (#[trigger] qs[j]).queue@.len() == 0 by {
                    assert(!live(e1, j));
                }
                assert forall|j: int| 0 <= j < k implies (#[trigger] e1[j]) is None by {
                    assert(!live(e1, j));
                }
                lemma_held_empty(e1, qs, k as int);
                assert(self.pending() == Multiset::<RecordModel>::empty());
                assert forall|i: int| 0 <= i < k implies !self.open_run(i) by {
                    assert(e1[i] is None);
                }
            }
            return MergeStep::Done;
        }
        let rec = self.external_node[top].take().unwrap();
        let ghost e2 = self.external_node@;
        let ghost old_last = self.last;
        let ghost old_emitted = self.emitted@;
        self.last = Some(rec.duplicate());
        self.emitted = Ghost(self.emitted@.push(rec@));
        proof {
            let kk = k as int;
            let t = top as int;
            assert(e2 == e1.update(t, None));
            // The tree still caches only winners.
            assert forall|n: int|
                1 <= n < kk && (#[trigger] self.internal_node@[n]).ptr is Some implies self.internal_node@[n].ptr->Some_0
                == node_winner(e2, kk, n) by {
                assert(!on_path(kk, n, t));
                lemma_node_range(kk, n);
                assert forall|j: int| first(kk, n) <= j < first(kk, n) + width(kk, n) implies #[trigger] e1[j]
                    == e2[j] by {}
                lemma_node_winner_local(e1, e2, kk, n);
            }
            assert forall|x: int| 0 <= x < e2.len() && #[trigger] e2[x] is Some implies e2[x]->Some_0@.wf() by {
                assert(e1[x] == e2[x]);
            }
            assert(tree_ok(self.internal_node@, e2));
            // The emitted record precedes every remaining candidate.
            assert forall|i: int| 0 <= i < kk && #[trigger] e2[i] is Some implies rec_le(rec@, e2[i]->Some_0@) by {
                assert(e1[i] == e2[i]);
                assert(live(e1, i));
                assert(precedes(e1, t, i));
            }
            // It does not sort before anything emitted earlier.
            if old_last is Some {
                assert(rec_le(old_last->Some_0@, rec@));
            }
            assert forall|a: int, b: int| 0 <= a < b < self.emitted@.len() implies rec_le(
                #[trigger] self.emitted@[a],
                #[trigger] self.emitted@[b],
            ) by {
                if b == old_emitted.len() {
                    if a < old_emitted.len() - 1 {
                        assert(rec_le(old_emitted[a], old_emitted.last()));
                    } else {
                        lemma_rec_cmp_antisymmetric(old_emitted[a], old_emitted[a]);
                    }
                    lemma_rec_le_transitive(old_emitted[a], old_last->Some_0@, rec@);
                }
            }
            // The winner's queue is bounded below by the new last record.
            assert forall|i: int, j: int|
                0 <= i < kk && e2[i] is None && 0 <= j < qs[i].records().len() implies rec_le(
                rec@,
                #[trigger] qs[i].records()[j],
            ) by {
                if i != t {
                    assert(e1[i] == e2[i]);
                    assert(!self.open_run(i));
                }
            }
            assert forall|n: int, i: int|
                #![trigger self.internal_node@[n], e2[i]]
                1 <= n < kk && 0 <= i < kk && e2[i] is None && self.open_run(i) && first(kk, n) <= i
                    < first(kk, n) + width(kk, n) implies self.internal_node@[n].ptr is None by {
                if i != t {
                    assert(e1[i] == e2[i]);
                } else {
                    assert(on_path(kk, n, t));
                }
            }
            // Accounting: the record moved from the runs to the output.
            assert forall|j: int| 0 <= j < kk && j != t implies part(e1, qs, j) == part(e2, qs, j) by {
                assert(e1[j] == e2[j]);
            }
            lemma_held_update(e1, qs, e2, qs, kk, t);
            let h1 = held(e1, qs, kk);
            let h2 = held(e2, qs, kk);
            assert(part(e1, qs, t) =~= part(e2, qs, t).insert(rec@));
            assert(h1 =~= h2.insert(rec@)) by {
                assert forall|x: RecordModel| #[trigger] h1.count(x) == h2.insert(rec@).count(x) by {
                    assert(h2.add(part(e1, qs, t)).count(x) == h1.add(part(e2, qs, t)).count(x));
                }
            }
            assert(self.emitted@.to_multiset() =~= old_emitted.to_multiset().insert(rec@));
            assert(self.emitted@.to_multiset().add(h2) =~= old_emitted.to_multiset().add(h1));
            assert(h1.len() == h2.len() + 1);
            assert(old(self).emitted@.to_multiset().add(old(self).pending()).len() == old(self).delivered@.len());
            assert(old_emitted.to_multiset().add(h1).len() == old(self).delivered@.len());
        }
        MergeStep::Emit(rec)
    }

    /// The record that whatever run `i` delivers next must not sort
    /// before: its candidate, or else the last record emitted.
    pub open spec fn floor(&self, i: int) -> Option<RecordModel> {
        if self.external_node@[i] is Some {
            Some(self.external_node@[i]->Some_0@)
        } else if self.last is Some {
            Some(self.last->Some_0@)
        } else {
            None
        }
    }

    /// Hands over what a `Load { run, .. }` step asked for: the segment,
    /// or `None` when the run has no such segment, which ends the run.
    ///
    /// A segment is taken when the run's records so far followed by the
    /// segment's are in order; otherwise it is refused with `OutOfOrder`
    /// and the run is ended. A run that did not ask for a segment is left as
    /// it is.
    pub fn deliver(&mut self, run: usize, segment: Option<&Segment>) -> (r: Result<(), MergeError>)
        requires
            old(self).inv(),
        ensures
            final(self).inv(),
            final(self).k() == old(self).k(),
            final(self).emitted == old(self).emitted,
            forall|j: int| 0 <= j < old(self).k() && j != run ==> #[trigger] final(self).queues@[j] == old(self).queues@[j],
            run >= old(self).k() ==> r == Err::<(), MergeError>(MergeError::NoSuchRun) && *final(self)
                == *old(self),
            run < old(self).k() && !old(self).queues@[run as int].wants_segment() ==> r is Ok
                && *final(self) == *old(self),
            run < old(self).k() && old(self).queues@[run as int].wants_segment() ==> {
                let q = old(self).queues@[run as int];
                let fq = final(self).queues@[run as int];
                if segment is None {
                    r is Ok && fq.queue@.len() == 0 && fq.end_of_record && final(self).delivered
                        == old(self).delivered && fq.current_chunk == q.current_chunk
                        && final(self).given == old(self).given
                } else if q.current_chunk == usize::MAX {
                    r == Err::<(), MergeError>(MergeError::TooManySegments) && *final(self) == *old(self)
                } else if sorted(old(self).given@[run as int] + segment_records(*segment->Some_0)) {
                    r is Ok && fq.records() == segment_records(*segment->Some_0) && !fq.end_of_record
                        && fq.current_chunk == q.current_chunk + 1 && final(self).delivered@
                        == old(self).delivered@ + segment_records(*segment->Some_0)
                        && final(self).given@ == old(self).given@.update(
                        run as int,
                        old(self).given@[run as int] + segment_records(*segment->Some_0),
                    )
                } else {
                    r == Err::<(), MergeError>(MergeError::OutOfOrder) && fq.queue@.len() == 0
                        && fq.end_of_record && final(self).delivered == old(self).delivered
                        && final(self).given == old(self).given
                }
            },
    {
        if run >= self.queues.len() {
            return Err(MergeError::NoSuchRun);
        }
        if !self.queues[run].needs_segment() {
            return Ok(());
        }
        if segment.is_some() && self.queues[run].current_chunk == usize::MAX {
            return Err(MergeError::TooManySegments);
        }
        let ghost e = self.external_node@;
        let ghost q1 = self.queues@;
        let ghost k = self.k();
        let ghost i = run as int;
        fill_the_queue(&mut self.queues[run], segment);
        let ghost q2 = self.queues@;
        proof {
            assert forall|j: int| 0 <= j < k && j != i implies part(e, q1, j) == part(e, q2, j) by {
                assert(q1[j] == q2[j]);
            }
            lemma_held_update(e, q1, e, q2, k, i);
            assert(q1[i].records() =~= Seq::<RecordModel>::empty());
        }
        match segment {
            None => {
                proof {
                    assert(q2[i].records() =~= Seq::<RecordModel>::empty());
                    assert(part(e, q1, i) =~= part(e, q2, i));
                    assert forall|j: int| 0 <= j < k implies part(e, q1, j) == part(e, q2, j) by {
                        if j != i {
                            assert(q1[j] == q2[j]);
                        }
                    }
                    lemma_held_same(e, q1, e, q2, k);
                    let ext = self.external_node@;
                    assert forall|n: int, j: int|
                        #![trigger self.internal_node@[n], ext[j]]
                        1 <= n < k && 0 <= j < k && ext[j] is None && self.open_run(j) && first(k, n) <= j
                            < first(k, n) + width(k, n) implies self.internal_node@[n].ptr is None by {
                        if j != i {
                            assert(q1[j] == q2[j]);
                        }
                    }
                }
                Ok(())
            },
            Some(seg) => {
                let ghost recs = segment_records(*seg);
                proof {
                    assert(seg.raw@.len() == seg.raw.len());
                    lemma_decoded_storable(seg.raw@, seg.offsets@, seg.key_map@);
                }
                let ok = match &self.external_node[run] {
                    Some(c) => ordered_after(&self.queues[run].queue, Some(c)),
                    None => match &self.last {
                        Some(l) => ordered_after(&self.queues[run].queue, Some(l)),
                        None => ordered_after(&self.queues[run].queue, None),
                    },
                };
                proof {
                    lemma_in_order_after(old(self).given@[i], recs);
                    assert(old(self).floor(i) == (if old(self).given@[i].len() == 0 {
                        None
                    } else {
                        Some(old(self).given@[i].last())
                    }));
                }
                if ok {
                    self.delivered = Ghost(self.delivered@ + recs);
                    self.given = Ghost(self.given@.update(i, self.given@[i] + recs));
                    proof {
                        let h1 = held(e, q1, k);
                        let h2 = held(e, q2, k);
                        assert(part(e, q2, i) =~= part(e, q1, i).add(recs.to_multiset()));
                        assert(h2 =~= h1.add(recs.to_multiset())) by {
                            assert forall|x: RecordModel| #[trigger] h2.count(x) == h1.add(recs.to_multiset()).count(x) by {
                                assert(h2.add(part(e, q1, i)).count(x) == h1.add(part(e, q2, i)).count(x));
                            }
                        }
                        vstd::seq_lib::lemma_multiset_commutative(old(self).delivered@, recs);
                        assert(self.emitted@.to_multiset().add(self.pending()) =~= self.delivered@.to_multiset());
                        let ext = self.external_node@;
                        let qs = self.queues@;
                        assert forall|n: int, j: int|
                            #![trigger self.internal_node@[n], ext[j]]
                            1 <= n < k && 0 <= j < k && ext[j] is None && self.open_run(j) && first(k, n) <= j
                                < first(k, n) + width(k, n) implies self.internal_node@[n].ptr is None by {
                            if j != i {
                                assert(q1[j] == q2[j]);
                            }
                        }
                    }
                    Ok(())
                } else {
                    self.queues[run].queue.clear();
                    self.queues[run].end_of_record = true;
                    proof {
                        let q3 = self.queues@;
                        assert(q3[i].records() =~= Seq::<RecordModel>::empty());
                        assert forall|j: int| 0 <= j < k implies part(e, q1, j) == part(e, q3, j) by {
                            if j != i {
                                assert(q1[j] == q3[j]);
                            }
                        }
                        lemma_held_same(e, q1, e, q3, k);
                    }
                    Err(MergeError::OutOfOrder)
                }
            },
        }
    }

    /// The first run whose queue wants its next segment, if any.
    fn run_wanting_segment(&self) -> (r: Option<usize>)
        ensures
            r matches Some(i) ==> i < self.k() && self.queues@[i as int].wants_segment(),
            r is None ==> forall|i: int| 0 <= i < self.k() ==> !(#[trigger] self.queues@[i]).wants_segment(),
    {
        let mut i: usize = 0;
        while i < self.queues.len()
            invariant
                0 <= i <= self.queues@.len(),
                forall|j: int| 0 <= j < i ==> !(#[trigger] self.queues@[j]).wants_segment(),
            decreases self.queues@.len() - i,
        {
            if self.queues[i].needs_segment() {
                return Some(i);
            }
            i = i + 1;
        }
        None
    }
}

/// `recs` are sorted and none of them sorts before `floor`.
pub open spec fn in_order_after(recs: Seq<RecordModel>, floor: Option<RecordModel>) -> bool {
    &&& sorted(recs)
    &&& floor matches Some(f) ==> forall|j: int| 0 <= j < recs.len() ==> rec_le(f, #[trigger] recs[j])
}

/// After sorted records, more records keep the whole in order exactly when
/// they are sorted and none sorts before the last record before them.
proof fn lemma_in_order_after(given: Seq<RecordModel>, recs: Seq<RecordModel>)
    requires
        sorted(given),
    ensures
        in_order_after(
            recs,
            if given.len() == 0 {
                None
            } else {
                Some(given.last())
            },
        ) <==> sorted(given + recs),
{
    let all = given + recs;
    let n = given.len() as int;
    if sorted(all) {
        assert forall|a: int, b: int| 0 <= a < b < recs.len() implies rec_le(#[trigger] recs[a], #[trigger] recs[b]) by {
            assert(all[n + a] == recs[a]);
            assert(all[n + b] == recs[b]);
        }
        if n > 0 {
            assert forall|j: int| 0 <= j < recs.len() implies rec_le(given.last(), #[trigger] recs[j]) by {
                assert(all[n - 1] == given.last());
                assert(all[n + j] == recs[j]);
            }
        }
    }
    if in_order_after(recs, if n == 0 { None } else { Some(given.last()) }) {
        assert forall|a: int, b: int| 0 <= a < b < all.len() implies rec_le(#[trigger] all[a], #[trigger] all[b]) by {
            if b < n {
                assert(all[a] == given[a]);
                assert(all[b] == given[b]);
            } else if a >= n {
                assert(all[a] == recs[a - n]);
                assert(all[b] == recs[b - n]);
            } else {
                assert(all[a] == given[a]);
                assert(all[b] == recs[b - n]);
                if a < n - 1 {
                    assert(rec_le(given[a], given[n - 1]));
                } else {
                    lemma_rec_cmp_antisymmetric(given[a], given[a]);
                }
                lemma_rec_le_transitive(given[a], given.last(), recs[b - n]);
            }
        }
    }
}

/// Whether the records of `q` are sorted and none sorts before `floor`.
fn ordered_after(q: &VecDeque<RawRecord>, floor: Option<&RawRecord>) -> (r: bool)
    requires
        storable(models(q@)),
        floor matches Some(f) ==> f@.wf(),
    ensures
        r == in_order_after(
            models(q@),
            match floor {
                Some(f) => Some(f@),
                None => None,
            },
        ),
{
    let ghost recs = models(q@);
    let ghost fl: Option<RecordModel> = match floor {
        Some(f) => Some(f@),
        None => None,
    };
    let n = q.len();
    let mut i: usize = 0;
    while i < n
        invariant
            n == q@.len(),
            recs == models(q@),
            storable(recs),
            fl == (match floor {
                Some(f) => Some(f@),
                None => None::<RecordModel>,
            }),
            floor matches Some(f) ==> f@.wf(),
            0 <= i <= n,
            forall|a: int, b: int| 0 <= a < b < i ==> rec_le(#[trigger] recs[a], #[trigger] recs[b]),
            fl matches Some(f) ==> forall|a: int| 0 <= a < i ==> rec_le(f, #[trigger] recs[a]),
        decreases n - i,
    {
        assert(recs[i as int] == q@[i as int]@);
        assert(recs[i as int].wf());
        if i > 0 {
            assert(recs[i - 1] == q@[i - 1]@);
            if let Ordering::Greater = compare_records(&q[i - 1], &q[i]) {
                return false;
            }
            assert forall|a: int| 0 <= a < i implies rec_le(#[trigger] recs[a], recs[i as int]) by {
                if a < i - 1 {
                    lemma_rec_le_transitive(recs[a], recs[i - 1], recs[i as int]);
                }
            }
            proof {
                if fl is Some {
                    lemma_rec_le_transitive(fl->Some_0, recs[i - 1], recs[i as int]);
                }
            }
        } else {
            match floor {
                Some(f) => {
                    if let Ordering::Greater = compare_records(f, &q[0]) {
                        return false;
                    }
                },
                None => {},
            }
        }
        i = i + 1;
    }
    true
}

} // verus!
