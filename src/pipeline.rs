//! The sort in memory: the merge of runs held in memory, and the whole
//! pipeline (chunking, sorting into run segments, merging), composed as the
//! command-line program composes it with files.
use crate::chunk::ChunkBuilder;
use crate::merge::{MergeError, MergeStep, Merger};
use crate::reader::Queue;
use crate::record::{models, rec_le, RawRecord, RecordModel};
use crate::segment::{segment_records, storable, Segment};
use crate::sorter::{concat_groups, internal_pool_sort, run_records, sorted};
use crate::tournament::is_pow2;
use vstd::multiset::Multiset;
use vstd::prelude::*;

verus! {

broadcast use {vstd::seq_lib::group_to_multiset_ensures, vstd::multiset::group_multiset_axioms};

/// The records of segments `s ..` of a run, in order.
pub open spec fn rest_of_run(segs: Seq<Segment>, s: int) -> Seq<RecordModel>
    decreases segs.len() - s,
{
    if s < 0 || s >= segs.len() {
        Seq::empty()
    } else {
        segment_records(segs[s]) + rest_of_run(segs, s + 1)
    }
}

/// The records of runs `0 .. n`, run after run.
pub open spec fn all_records(runs: Seq<Vec<Segment>>, n: int) -> Seq<RecordModel>
    decreases n,
{
    if n <= 0 {
        Seq::empty()
    } else {
        all_records(runs, n - 1) + rest_of_run(runs[n - 1]@, 0)
    }
}

/// The sum of `f(0) .. f(n - 1)`.
pub open spec fn ms_sum(f: spec_fn(int) -> Multiset<RecordModel>, n: int) -> Multiset<RecordModel>
    decreases n,
{
    if n <= 0 {
        Multiset::empty()
    } else {
        ms_sum(f, n - 1).add(f(n - 1))
    }
}

/// The sum of `f(0) .. f(n - 1)`.
pub open spec fn nat_sum(f: spec_fn(int) -> nat, n: int) -> nat
    decreases n,
{
    if n <= 0 {
        0
    } else {
        nat_sum(f, n - 1) + f(n - 1)
    }
}

proof fn lemma_ms_sum_update(f: spec_fn(int) -> Multiset<RecordModel>, g: spec_fn(int) -> Multiset<RecordModel>, n: int, i: int)
    requires
        0 <= i < n,
        forall|j: int| 0 <= j < n && j != i ==> #[trigger] f(j) == g(j),
    ensures
        ms_sum(g, n).add(f(i)) == ms_sum(f, n).add(g(i)),
    decreases n,
{
    if n - 1 == i {
        lemma_ms_sum_same(f, g, n - 1);
        assert(ms_sum(g, n).add(f(i)) =~= ms_sum(f, n).add(g(i)));
    } else {
        lemma_ms_sum_update(f, g, n - 1, i);
        let (a, b, p) = (ms_sum(g, n - 1), ms_sum(f, n - 1), f(n - 1));
        assert(f(n - 1) == g(n - 1));
        assert forall|x: RecordModel| #[trigger] a.add(p).add(f(i)).count(x) == b.add(p).add(g(i)).count(x) by {
            assert(a.add(f(i)).count(x) == b.add(g(i)).count(x));
        }
        assert(ms_sum(g, n).add(f(i)) =~= ms_sum(f, n).add(g(i)));
    }
}

proof fn lemma_ms_sum_same(f: spec_fn(int) -> Multiset<RecordModel>, g: spec_fn(int) -> Multiset<RecordModel>, n: int)
    requires
        forall|j: int| 0 <= j < n ==> #[trigger] f(j) == g(j),
    ensures
        ms_sum(f, n) == ms_sum(g, n),
    decreases n,
{
    if n > 0 {
        lemma_ms_sum_same(f, g, n - 1);
    }
}

proof fn lemma_nat_sum_update(f: spec_fn(int) -> nat, g: spec_fn(int) -> nat, n: int, i: int)
    requires
        0 <= i < n,
        forall|j: int| 0 <= j < n && j != i ==> #[trigger] f(j) == g(j),
    ensures
        nat_sum(g, n) + f(i) == nat_sum(f, n) + g(i),
    decreases n,
{
    if n - 1 == i {
        lemma_nat_sum_same(f, g, n - 1);
    } else {
        lemma_nat_sum_update(f, g, n - 1, i);
    }
}

proof fn lemma_nat_sum_same(f: spec_fn(int) -> nat, g: spec_fn(int) -> nat, n: int)
    requires
        forall|j: int| 0 <= j < n ==> #[trigger] f(j) == g(j),
    ensures
        nat_sum(f, n) == nat_sum(g, n),
    decreases n,
{
    if n > 0 {
        lemma_nat_sum_same(f, g, n - 1);
    }
}

proof fn lemma_all_records(runs: Seq<Vec<Segment>>, n: int)
    ensures
        all_records(runs, n).to_multiset() == ms_sum(|r: int| rest_of_run(runs[r]@, 0).to_multiset(), n),
    decreases n,
{
    if n > 0 {
        lemma_all_records(runs, n - 1);
        vstd::seq_lib::lemma_multiset_commutative(all_records(runs, n - 1), rest_of_run(runs[n - 1]@, 0));
    }
}

/// What the runs have not delivered yet: for each run, the records of its
/// segments from `current_chunk` on.
pub open spec fn undelivered(runs: Seq<Vec<Segment>>, qs: Seq<Queue>) -> Multiset<RecordModel> {
    ms_sum(|r: int| rest_of_run(runs[r]@, qs[r].current_chunk as int).to_multiset(), qs.len() as int)
}

/// How many segment loads the runs may still ask for.
pub open spec fn loads_left(runs: Seq<Vec<Segment>>, qs: Seq<Queue>) -> nat {
    nat_sum(
        |r: int|
            if qs[r].end_of_record {
                0nat
            } else {
                (runs[r]@.len() + 1 - qs[r].current_chunk) as nat
            },
        qs.len() as int,
    )
}

/// Merges runs held in memory, `runs[r]` holding the segments of run `r` in
/// order: drives a `Merger`, answering each `Load` with the segment asked
/// for (or `None` past the run's last segment).
///
/// The merge always ends. It succeeds when the number of runs is a power of
/// two and every run is sorted; the output then holds every record of every
/// run, each once, in ascending (primary key, secondary key) order. The
/// merge took one tournament round per record, plus the round that found
/// every run exhausted: at most the number of records plus the number of
/// runs.
pub fn merge_runs(runs: &Vec<Vec<Segment>>) -> (r: Result<Vec<RawRecord>, MergeError>)
    ensures
        r matches Err(e) ==> (e == MergeError::BadRunCount <==> (!is_pow2(runs@.len() as int)
            || runs@.len() == usize::MAX)) && (e == MergeError::BadRunCount || e
            == MergeError::OutOfOrder),
        (is_pow2(runs@.len() as int) && runs@.len() < usize::MAX) ==> r is Ok || r == Err::<Vec<RawRecord>, MergeError>(MergeError::OutOfOrder),
        (is_pow2(runs@.len() as int) && runs@.len() < usize::MAX && forall|i: int|
            0 <= i < runs@.len() ==> sorted(#[trigger] rest_of_run(runs@[i]@, 0))) ==> r is Ok,
        r matches Ok(out) ==> sorted(models(out@)) && models(out@).to_multiset() == all_records(
            runs@,
            runs@.len() as int,
        ).to_multiset() && out@.len() == all_records(runs@, runs@.len() as int).len() && out@.len()
            + 1 <= all_records(runs@, runs@.len() as int).len() + runs@.len(),
{
    let mut m = match Merger::new(runs.len()) {
        Ok(m) => m,
        Err(e) => {
            return Err(e);
        },
    };
    let ghost n = runs@.len() as int;
    let mut out: Vec<RawRecord> = Vec::new();
    proof {
        let f = |r: int| rest_of_run(runs@[r]@, m.queues@[r].current_chunk as int).to_multiset();
        let g = |r: int| rest_of_run(runs@[r]@, 0).to_multiset();
        lemma_ms_sum_same(f, g, n);
        lemma_all_records(runs@, n);
        assert(m.delivered@.to_multiset() =~= Multiset::<RecordModel>::empty());
        assert(models(out@) =~= m.emitted@);
        assert forall|r: int| 0 <= r < n implies #[trigger] rest_of_run(runs@[r]@, 0) == m.given@[r] + rest_of_run(runs@[r]@,
            m.queues@[r].current_chunk as int,
        ) by {
            assert(m.given@[r] + rest_of_run(runs@[r]@, 0) =~= rest_of_run(runs@[r]@, 0));
        }
    }
    loop
        invariant
            m.inv(),
            m.k() == n,
            n == runs@.len(),
            forall|r: int|
                0 <= r < n ==> (#[trigger] m.queues@[r]).current_chunk <= runs@[r]@.len() && (
                m.queues@[r].end_of_record ==> m.queues@[r].current_chunk == runs@[r]@.len()),
            m.delivered@.to_multiset().add(undelivered(runs@, m.queues@)) == all_records(
                runs@,
                n,
            ).to_multiset(),
            models(out@) == m.emitted@,
            forall|r: int|
                0 <= r < n ==> #[trigger] rest_of_run(runs@[r]@, 0) == m.given@[r] + rest_of_run(runs@[r]@,
                    m.queues@[r].current_chunk as int,
                ),
        decreases 2 * (m.pending().len() + undelivered(runs@, m.queues@).len()) + loads_left(
            runs@,
            m.queues@,
        ),
    {
        let ghost m0 = m;
        match m.step() {
            MergeStep::Load { run, segment } => {
                let ghost m1 = m;
                let seg = if segment < runs[run].len() {
                    Some(&runs[run][segment])
                } else {
                    None
                };
                let ghost g0 = m.given@;
                match m.deliver(run, seg) {
                    Ok(()) => {},
                    Err(e) => {
                        proof {
                            let i = run as int;
                            let c = m1.queues@[i].current_chunk as int;
                            if forall|x: int| 0 <= x < n ==> sorted(#[trigger] rest_of_run(runs@[x]@, 0)) {
                                let recs = segment_records(runs@[i]@[c]);
                                assert(sorted(rest_of_run(runs@[i]@, 0)));
                                assert(rest_of_run(runs@[i]@, 0) =~= (g0[i] + recs) + rest_of_run(runs@[i]@, c + 1));
                                lemma_sorted_prefix(g0[i] + recs, rest_of_run(runs@[i]@, c + 1));
                            }
                        }
                        return Err(e);
                    },
                }
                proof {
                    let i = run as int;
                    let q0 = m1.queues@;
                    let q1 = m.queues@;
                    let f = |r: int| rest_of_run(runs@[r]@, q0[r].current_chunk as int).to_multiset();
                    let g = |r: int| rest_of_run(runs@[r]@, q1[r].current_chunk as int).to_multiset();
                    let lf = |r: int|
                        if q0[r].end_of_record {
                            0nat
                        } else {
                            (runs@[r]@.len() + 1 - q0[r].current_chunk) as nat
                        };
                    let lg = |r: int|
                        if q1[r].end_of_record {
                            0nat
                        } else {
                            (runs@[r]@.len() + 1 - q1[r].current_chunk) as nat
                        };
                    assert forall|j: int| 0 <= j < n && j != i implies #[trigger] f(j) == g(j) by {
                        assert(q0[j] == q1[j]);
                    }
                    assert forall|j: int| 0 <= j < n && j != i implies #[trigger] lf(j) == lg(j) by {
                        assert(q0[j] == q1[j]);
                    }
                    lemma_ms_sum_update(f, g, n, i);
                    lemma_nat_sum_update(lf, lg, n, i);
                    let c = q0[i].current_chunk as int;
                    assert forall|r: int| 0 <= r < n implies #[trigger] rest_of_run(runs@[r]@, 0) == m.given@[r] + rest_of_run(runs@[r]@,
                        m.queues@[r].current_chunk as int,
                    ) by {
                        if r == i && seg is Some {
                            assert(rest_of_run(runs@[i]@, c) == segment_records(runs@[i]@[c]) + rest_of_run(runs@[i]@, c + 1));
                            assert(m.given@[r] + rest_of_run(runs@[r]@, c + 1) =~= g0[r] + rest_of_run(runs@[r]@, c));
                        } else if r != i {
                            assert(q0[r] == q1[r]);
                        }
                    }
                    if seg is Some {
                        assert(rest_of_run(runs@[i]@, c) == segment_records(runs@[i]@[c]) + rest_of_run(runs@[i]@, c + 1));
                        vstd::seq_lib::lemma_multiset_commutative(segment_records(runs@[i]@[c]), rest_of_run(runs@[i]@, c + 1));
                        vstd::seq_lib::lemma_multiset_commutative(m1.delivered@, segment_records(runs@[i]@[c]));
                        assert(f(i) =~= g(i).add(segment_records(runs@[i]@[c]).to_multiset()));
                        assert(m.delivered@.to_multiset().add(undelivered(runs@, q1)) =~= m1.delivered@.to_multiset().add(undelivered(runs@, q0))) by {
                            let d = segment_records(runs@[i]@[c]).to_multiset();
                            assert(m.delivered@.to_multiset() =~= m1.delivered@.to_multiset().add(d));
                            assert forall|x: RecordModel| #[trigger] undelivered(runs@, q1).add(d).count(x) == undelivered(runs@, q0).count(x) by {
                                assert(ms_sum(g, n).add(f(i)).count(x) == ms_sum(f, n).add(g(i)).count(x));
                            }
                            assert forall|x: RecordModel| #[trigger] m.delivered@.to_multiset().add(undelivered(runs@, q1)).count(x) == m1.delivered@.to_multiset().add(undelivered(runs@, q0)).count(x) by {
                                assert(undelivered(runs@, q1).add(d).count(x) == undelivered(runs@, q0).count(x));
                            }
                        }
                        assert(m.pending().len() == m1.pending().len() + segment_records(runs@[i]@[c]).len()) by {
                            assert(m.emitted@.to_multiset().add(m.pending()).len() == m.delivered@.len());
                            assert(m1.emitted@.to_multiset().add(m1.pending()).len() == m1.delivered@.len());
                        }
                        assert(undelivered(runs@, q0).len() == undelivered(runs@, q1).len() + segment_records(runs@[i]@[c]).len()) by {
                            assert(ms_sum(g, n).add(f(i)).len() == ms_sum(f, n).add(g(i)).len());
                        }
                    } else {
                        assert(rest_of_run(runs@[i]@, c) =~= Seq::<RecordModel>::empty());
                        assert(f(i) =~= g(i));
                        assert(undelivered(runs@, q1) =~= undelivered(runs@, q0)) by {
                            assert forall|x: RecordModel| #[trigger] undelivered(runs@, q1).count(x) == undelivered(runs@, q0).count(x) by {
                                assert(ms_sum(g, n).add(f(i)).count(x) == ms_sum(f, n).add(g(i)).count(x));
                            }
                        }
                        assert(m.pending() =~= m1.pending()) by {
                            assert forall|x: RecordModel| #[trigger] m.pending().count(x) == m1.pending().count(x) by {
                                assert(m.emitted@.to_multiset().add(m.pending()).count(x) == m.delivered@.to_multiset().count(x));
                                assert(m1.emitted@.to_multiset().add(m1.pending()).count(x) == m1.delivered@.to_multiset().count(x));
                            }
                        }
                    }
                }
            },
            MergeStep::Emit(rec) => {
                out.push(rec);
                proof {
                    assert(models(out@) =~= m.emitted@);
                    let f = |r: int| rest_of_run(runs@[r]@, m0.queues@[r].current_chunk as int).to_multiset();
                    let g = |r: int| rest_of_run(runs@[r]@, m.queues@[r].current_chunk as int).to_multiset();
                    lemma_ms_sum_same(f, g, n);
                    let lf = |r: int|
                        if m0.queues@[r].end_of_record {
                            0nat
                        } else {
                            (runs@[r]@.len() + 1 - m0.queues@[r].current_chunk) as nat
                        };
                    let lg = |r: int|
                        if m.queues@[r].end_of_record {
                            0nat
                        } else {
                            (runs@[r]@.len() + 1 - m.queues@[r].current_chunk) as nat
                        };
                    lemma_nat_sum_same(lf, lg, n);
                }
            },
            MergeStep::Done => {
                proof {
                    let g = |r: int| rest_of_run(runs@[r]@, m.queues@[r].current_chunk as int).to_multiset();
                    let z = |r: int| Multiset::<RecordModel>::empty();
                    assert forall|j: int| 0 <= j < n implies #[trigger] g(j) == z(j) by {
                        assert(!m.open_run(j));
                        assert(rest_of_run(runs@[j]@, m.queues@[j].current_chunk as int) =~= Seq::<RecordModel>::empty());
                    }
                    lemma_ms_sum_same(g, z, n);
                    lemma_ms_sum_zero(n);
                    let f0 = |r: int| rest_of_run(runs@[r]@, m0.queues@[r].current_chunk as int).to_multiset();
                    lemma_ms_sum_same(f0, g, n);
                    assert(undelivered(runs@, m0.queues@) == undelivered(runs@, m.queues@));
                    assert(m.pending().len() == 0);
                    vstd::multiset::lemma_multiset_empty_len(m.pending());
                    assert(m.pending() =~= Multiset::<RecordModel>::empty());
                    assert(m.emitted@.to_multiset().add(m.pending()) =~= m.emitted@.to_multiset());
                    assert(undelivered(runs@, m.queues@) =~= Multiset::<RecordModel>::empty());
                    assert(m.delivered@.to_multiset() =~= all_records(runs@, n).to_multiset());
                    assert(models(out@).to_multiset() == all_records(runs@, n).to_multiset());
                    assert(models(out@).len() == models(out@).to_multiset().len());
                    assert(all_records(runs@, n).len() == all_records(runs@, n).to_multiset().len());
                    assert(sorted(models(out@)));
                }
                return Ok(out);
            },
        }
    }
}

proof fn lemma_sorted_prefix(a: Seq<RecordModel>, b: Seq<RecordModel>)
    requires
        sorted(a + b),
    ensures
        sorted(a),
{
    assert forall|x: int, y: int| 0 <= x < y < a.len() implies rec_le(#[trigger] a[x], #[trigger] a[y]) by {
        assert((a + b)[x] == a[x]);
        assert((a + b)[y] == a[y]);
    }
}

proof fn lemma_ms_sum_zero(n: int)
    ensures
        ms_sum(|r: int| Multiset::<RecordModel>::empty(), n) == Multiset::<RecordModel>::empty(),
    decreases n,
{
    if n > 0 {
        lemma_ms_sum_zero(n - 1);
        assert(ms_sum(|r: int| Multiset::<RecordModel>::empty(), n) =~= Multiset::<RecordModel>::empty());
    }
}

proof fn lemma_concat_front(gs: Seq<Seq<RecordModel>>)
    requires
        gs.len() > 0,
    ensures
        concat_groups(gs) == gs[0] + concat_groups(gs.drop_first()),
    decreases gs.len(),
{
    if gs.len() == 1 {
        assert(gs.drop_first() =~= Seq::<Seq<RecordModel>>::empty());
        assert(gs.drop_last() =~= Seq::<Seq<RecordModel>>::empty());
        assert(concat_groups(gs) =~= gs[0] + concat_groups(gs.drop_first()));
    } else {
        lemma_concat_front(gs.drop_last());
        assert(gs.drop_last().drop_first() =~= gs.drop_first().drop_last());
        assert(gs.drop_first().last() == gs.last());
        assert(concat_groups(gs) =~= gs[0] + concat_groups(gs.drop_first()));
    }
}

proof fn lemma_rest_of_run(segs: Seq<Segment>, s: int)
    requires
        0 <= s <= segs.len(),
    ensures
        rest_of_run(segs, s) == run_records(segs.subrange(s, segs.len() as int)),
    decreases segs.len() - s,
{
    let tail = segs.subrange(s, segs.len() as int);
    let gs = tail.map_values(|x: Segment| segment_records(x));
    if s == segs.len() {
        assert(gs =~= Seq::<Seq<RecordModel>>::empty());
    } else {
        lemma_rest_of_run(segs, s + 1);
        lemma_concat_front(gs);
        assert(gs.drop_first() =~= segs.subrange(s + 1, segs.len() as int).map_values(
            |x: Segment| segment_records(x),
        ));
    }
}

proof fn lemma_all_records_push(runs: Seq<Vec<Segment>>, x: Vec<Segment>, n: int)
    requires
        0 <= n <= runs.len(),
    ensures
        all_records(runs.push(x), n) == all_records(runs, n),
    decreases n,
{
    if n > 0 {
        lemma_all_records_push(runs, x, n - 1);
        assert(runs.push(x)[n - 1] == runs[n - 1]);
    }
}

proof fn lemma_models_multiset(s1: Seq<RawRecord>, s2: Seq<RawRecord>)
    requires
        s1.to_multiset() == s2.to_multiset(),
    ensures
        models(s1).to_multiset() == models(s2).to_multiset(),
    decreases s1.len(),
{
    s1.to_multiset_ensures();
    s2.to_multiset_ensures();
    if s1.len() == 0 {
        assert(s2.len() == 0);
        assert(models(s1) =~= models(s2));
    } else {
        let x = s1.last();
        assert(s1.contains(x));
        assert(s1.to_multiset().count(x) > 0);
        assert(s2.to_multiset().count(x) > 0);
        assert(s2.contains(x));
        let j = choose|j: int| 0 <= j < s2.len() && s2[j] == x;
        let a = s1.drop_last();
        let b = s2.remove(j);
        assert(s1.remove(s1.len() - 1) =~= a);
        assert(a.to_multiset() =~= b.to_multiset());
        lemma_models_multiset(a, b);
        assert(models(s1) =~= models(a).push(x@));
        assert(models(b) =~= models(s2).remove(j));
        assert(models(s2)[j] == x@);
        assert(models(s2).to_multiset() =~= models(b).to_multiset().insert(x@));
    }
}

/// Sorts records in memory through the whole pipeline: gathers them into
/// chunks of at most `chunk_size` bytes, sorts each chunk into a run of
/// segments of at most `queue_size` bytes, adds empty runs up to a power of
/// two, and merges the runs.
///
/// The result holds the same records, each once, in ascending (primary key,
/// secondary key) order.
pub fn sort_records(records: &Vec<RawRecord>, chunk_size: usize, queue_size: usize) -> (out: Vec<
    RawRecord,
>)
    requires
        storable(models(records@)),
        records@.len() <= usize::MAX / 4,
    ensures
        sorted(models(out@)),
        models(out@).to_multiset() == models(records@).to_multiset(),
{
    let mut builder = ChunkBuilder::new(chunk_size);
    let mut runs: Vec<Vec<Segment>> = Vec::new();
    let n = records.len();
    let mut i: usize = 0;
    proof {
        assert(models(records@.subrange(0, 0)) =~= Seq::<RecordModel>::empty());
        assert(models(builder.pool@) =~= Seq::<RecordModel>::empty());
    }
    while i < n
        invariant
            n == records@.len(),
            n <= usize::MAX / 4,
            storable(models(records@)),
            0 <= i <= n,
            builder.wf(),
            builder.chunk_size == chunk_size,
            builder.next_chunk == runs@.len(),
            runs@.len() + (if builder.pool@.len() > 0 {
                1int
            } else {
                0int
            }) <= i,
            storable(models(builder.pool@)),
            forall|r: int| 0 <= r < runs@.len() ==> sorted(#[trigger] rest_of_run(runs@[r]@, 0)),
            models(records@.subrange(0, i as int)).to_multiset() == all_records(
                runs@,
                runs@.len() as int,
            ).to_multiset().add(models(builder.pool@).to_multiset()),
        decreases n - i,
    {
        let rec = records[i].duplicate();
        proof {
            assert(models(records@)[i as int] == records@[i as int]@);
        }
        let ghost pool0 = builder.pool@;
        let ghost runs0 = runs@;
        match builder.push(rec) {
            Some((_id, chunk)) => {
                let mut pool = chunk;
                let ghost before = pool@;
                let segs = internal_pool_sort(&mut pool, queue_size);
                proof {
                    lemma_rest_of_run(segs@, 0);
                    assert(segs@.subrange(0, segs@.len() as int) =~= segs@);
                    lemma_models_multiset(pool@, before);
                }
                runs.push(segs);
                proof {
                    let m = runs0.len() as int;
                    lemma_all_records_push(runs0, segs, m);
                    vstd::seq_lib::lemma_multiset_commutative(all_records(runs0, m), rest_of_run(segs@, 0));
                    assert(models(builder.pool@) =~= seq![rec@]);
                }
            },
            None => {
                proof {
                    assert(models(builder.pool@) =~= models(pool0).push(rec@));
                }
            },
        }
        proof {
            assert(models(records@.subrange(0, i + 1)) =~= models(records@.subrange(0, i as int)).push(rec@));
            assert(storable(models(builder.pool@))) by {
                assert forall|x: int| 0 <= x < models(builder.pool@).len() implies (#[trigger] models(builder.pool@)[x]).wf() && !models(builder.pool@)[x].is_end by {
                    if x < pool0.len() && builder.pool@.len() > 1 {
                        assert(models(builder.pool@)[x] == models(pool0)[x]);
                    }
                }
            }
        }
        i = i + 1;
    }
    let ghost runs1 = runs@;
    proof {
        assert(records@.subrange(0, n as int) =~= records@);
    }
    match builder.finish() {
        Some((_id, chunk)) => {
            let mut pool = chunk;
            let ghost before = pool@;
            let segs = internal_pool_sort(&mut pool, queue_size);
            proof {
                lemma_rest_of_run(segs@, 0);
                assert(segs@.subrange(0, segs@.len() as int) =~= segs@);
                lemma_models_multiset(pool@, before);
            }
            runs.push(segs);
            proof {
                lemma_all_records_push(runs1, segs, runs1.len() as int);
                vstd::seq_lib::lemma_multiset_commutative(all_records(runs1, runs1.len() as int), rest_of_run(segs@, 0));
            }
        },
        None => {
            proof {
                assert(models(builder.pool@).to_multiset() =~= Multiset::<RecordModel>::empty());
            }
        },
    }
    // Empty runs up to a power of two.
    let mut k: usize = 1;
    while k < runs.len()
        invariant
            is_pow2(k as int),
            1 <= k,
            k <= 2 * runs@.len() || k == 1,
            runs@.len() <= usize::MAX / 4 + 1,
        decreases 2 * runs@.len() + 1 - k,
    {
        proof {
            assert((2 * k) / 2 == k);
        }
        k = k * 2;
    }
    while runs.len() < k
        invariant
            runs@.len() <= k,
            k <= usize::MAX / 2 + 2,
            forall|r: int| 0 <= r < runs@.len() ==> sorted(#[trigger] rest_of_run(runs@[r]@, 0)),
            models(records@).to_multiset() == all_records(runs@, runs@.len() as int).to_multiset(),
        decreases k - runs@.len(),
    {
        let ghost runs2 = runs@;
        runs.push(Vec::new());
        proof {
            let m = runs2.len() as int;
            lemma_all_records_push(runs2, runs@[m], m);
            assert(runs@ == runs2.push(runs@[m]));
            assert(rest_of_run(runs@[m]@, 0) =~= Seq::<RecordModel>::empty());
            assert(all_records(runs@, m + 1) =~= all_records(runs2, m));
        }
    }
    match merge_runs(&runs) {
        Ok(out) => out,
        Err(_) => {
            proof {
                assert(false);
            }
            Vec::new()
        },
    }
}

} // verus!
