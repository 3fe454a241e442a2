use crate::record::{
    entry_le, key_le, key_lt, lemma_key_le_transitive, lemma_key_lt_asymmetric,
    lemma_key_order_total, Entry, Rec,
};
use crate::engine::{distinct_seqs, lemma_least_index, least_index};
use crate::replacement_selection::{drain, extend_runs, primed, runs_of};
use vstd::prelude::*;

verus! {

/// The order in which records leave, without the sequence number: by
/// generation, then by key.
spec fn rank_le(g1: nat, k1: Seq<u8>, g2: nat, k2: Seq<u8>) -> bool {
    g1 < g2 || (g1 == g2 && key_le(k1, k2))
}

proof fn lemma_rank_le_transitive(
    g1: nat,
    k1: Seq<u8>,
    g2: nat,
    k2: Seq<u8>,
    g3: nat,
    k3: Seq<u8>,
)
    requires
        k1.len() == k2.len(),
        k2.len() == k3.len(),
        rank_le(g1, k1, g2, k2),
        rank_le(g2, k2, g3, k3),
    ensures
        rank_le(g1, k1, g3, k3),
{
    if g1 == g2 && g2 == g3 {
        lemma_key_le_transitive(k1, k2, k3);
    }
}

/// A state of replacement selection together with its history: the generation
/// that each record read so far was given on arrival, which records have left,
/// and the record that left last.
struct Trace {
    queue: Seq<Entry>,
    rest: Seq<Rec>,
    generation: nat,
    seq: nat,
    runs: Seq<Seq<Rec>>,
    tags: Seq<nat>,
    gone: Set<nat>,
    last_seq: nat,
    last_key: Seq<u8>,
}

/// The state after priming.
spec fn start(input: Seq<Rec>, cap: nat) -> Trace {
    let n = if cap <= input.len() {
        cap
    } else {
        input.len()
    };
    Trace {
        queue: primed(input, n),
        rest: input.skip(n as int),
        generation: 0,
        seq: n,
        runs: seq![Seq::<Rec>::empty()],
        tags: Seq::new(n, |i: int| 0nat),
        gone: Set::empty(),
        last_seq: 0,
        last_key: Seq::empty(),
    }
}

/// One step: the least record leaves, and one record of the input, if any is
/// left, takes its place.
spec fn advance(t: Trace) -> Trace {
    let i = least_index(t.queue);
    let x = t.queue[i];
    let runs1 = extend_runs(t.runs, x.generation == t.generation, x.rec);
    let queue1 = t.queue.remove(i);
    if t.rest.len() == 0 {
        Trace {
            queue: queue1,
            rest: t.rest,
            generation: x.generation,
            seq: t.seq,
            runs: runs1,
            tags: t.tags,
            gone: t.gone.insert(x.seq),
            last_seq: x.seq,
            last_key: x.rec.key@,
        }
    } else {
        let g = if key_lt(t.rest[0].key@, x.rec.key@) {
            x.generation + 1
        } else {
            x.generation
        };
        Trace {
            queue: queue1.push(Entry { rec: t.rest[0], generation: g, seq: t.seq }),
            rest: t.rest.drop_first(),
            generation: x.generation,
            seq: t.seq + 1,
            runs: runs1,
            tags: t.tags.push(g),
            gone: t.gone.insert(x.seq),
            last_seq: x.seq,
            last_key: x.rec.key@,
        }
    }
}

/// The state after `p` records have left.
spec fn after(input: Seq<Rec>, cap: nat, p: nat) -> Trace
    decreases p,
{
    if p == 0 {
        start(input, cap)
    } else {
        advance(after(input, cap, (p - 1) as nat))
    }
}

/// A queued record is the input's record of its sequence number, has the
/// generation noted for it, has not left, and is of the generation being
/// written or of the next.
spec fn entry_sound(e: Entry, t: Trace, input: Seq<Rec>) -> bool {
    &&& e.seq < t.seq
    &&& e.rec == input[e.seq as int]
    &&& e.generation == t.tags[e.seq as int]
    &&& !t.gone.contains(e.seq)
    &&& t.generation <= e.generation <= t.generation + 1
}

/// The record that left last is of the generation being written; no record
/// that has left comes after it, and no queued record before it.
spec fn last_sound(t: Trace, input: Seq<Rec>) -> bool {
    &&& t.last_seq < t.seq
    &&& t.gone.contains(t.last_seq)
    &&& t.tags[t.last_seq as int] == t.generation
    &&& t.last_key == input[t.last_seq as int].key@
    &&& forall|i: nat|
        t.gone.contains(i) ==> rank_le(
            #[trigger] t.tags[i as int],
            input[i as int].key@,
            t.generation,
            t.last_key,
        )
    &&& forall|j: int|
        0 <= j < t.queue.len() ==> rank_le(
            t.generation,
            t.last_key,
            (#[trigger] t.queue[j]).generation,
            t.queue[j].rec.key@,
        )
}

/// Every record read so far has left or is queued.
spec fn covered(t: Trace) -> bool {
    forall|i: nat|
        i < t.seq && !(#[trigger] t.gone.contains(i)) ==> exists|j: int|
            0 <= j < t.queue.len() && (#[trigger] t.queue[j]).seq == i
}

/// What holds of the state after `p` records have left.
spec fn sound(t: Trace, input: Seq<Rec>, cap: nat, p: nat) -> bool {
    &&& p <= input.len()
    &&& t.seq == p + t.queue.len()
    &&& t.seq <= input.len()
    &&& t.queue.len() == if cap <= input.len() - p {
        cap
    } else {
        (input.len() - p) as nat
    }
    &&& t.rest == input.skip(t.seq as int)
    &&& t.tags.len() == t.seq
    &&& t.gone.finite()
    &&& t.gone.len() == p
    &&& forall|i: nat| #[trigger] t.gone.contains(i) ==> i < t.seq
    &&& distinct_seqs(t.queue)
    &&& forall|j: int| 0 <= j < t.queue.len() ==> entry_sound(#[trigger] t.queue[j], t, input)
    &&& covered(t)
    &&& t.runs.len() == t.generation + 1
    &&& p >= 1 ==> last_sound(t, input)
    &&& drain(t.queue, t.rest, t.generation, t.seq, t.runs) == runs_of(input, cap)
}

proof fn lemma_start_sound(input: Seq<Rec>, cap: nat)
    requires
        cap >= 1,
        input.len() >= 1,
    ensures
        sound(start(input, cap), input, cap, 0),
{
    let t = start(input, cap);
    assert forall|i: nat| i < t.seq && !(#[trigger] t.gone.contains(i)) implies exists|j: int|
        0 <= j < t.queue.len() && (#[trigger] t.queue[j]).seq == i by {
        assert(t.queue[i as int].seq == i);
    }
}

proof fn lemma_advance_sound(t: Trace, input: Seq<Rec>, cap: nat, p: nat)
    requires
        cap >= 1,
        sound(t, input, cap, p),
        p < input.len(),
    ensures
        sound(advance(t), input, cap, p + 1),
{
    lemma_least_index(t.queue);
    let li = least_index(t.queue);
    let x = t.queue[li];
    let u = advance(t);
    let queue1 = t.queue.remove(li);
    assert(entry_sound(x, t, input));
    assert forall|j: int| 0 <= j < queue1.len() implies #[trigger] queue1[j] == t.queue[if j
        < li {
        j
    } else {
        j + 1
    }] by {}
    // every record that stays is not before the one that leaves
    assert forall|j: int| 0 <= j < queue1.len() implies rank_le(
        x.generation,
        x.rec.key@,
        (#[trigger] queue1[j]).generation,
        queue1[j].rec.key@,
    ) && queue1[j].seq != x.seq && entry_sound(queue1[j], t, input) by {
        let k = if j < li {
            j
        } else {
            j + 1
        };
        assert(queue1[j] == t.queue[k]);
        assert(entry_le(x, t.queue[k]));
        assert(entry_sound(t.queue[k], t, input));
        if k < li {
            assert(t.queue[k].seq != t.queue[li].seq);
        } else {
            assert(t.queue[li].seq != t.queue[k].seq);
        }
    }
    // every record that has left is not after the one that leaves now
    assert forall|i: nat| u.gone.contains(i) implies rank_le(
        #[trigger] t.tags[i as int],
        input[i as int].key@,
        x.generation,
        x.rec.key@,
    ) by {
        if i == x.seq {
            lemma_key_lt_asymmetric(x.rec.key@, x.rec.key@);
        } else if p >= 1 {
            assert(t.gone.contains(i));
            assert(rank_le(t.tags[i as int], input[i as int].key@, t.generation, t.last_key));
            assert(rank_le(t.generation, t.last_key, x.generation, x.rec.key@));
            lemma_rank_le_transitive(
                t.tags[i as int],
                input[i as int].key@,
                t.generation,
                t.last_key,
                x.generation,
                x.rec.key@,
            );
        } else {
            assert(t.gone.len() == 0);
            assert(t.gone.contains(i));
        }
    }
    assert(u.runs.len() == u.generation + 1);
    assert(drain(t.queue, t.rest, t.generation, t.seq, t.runs) == drain(
        u.queue,
        u.rest,
        u.generation,
        u.seq,
        u.runs,
    ));
    if t.rest.len() == 0 {
        assert(u.queue == queue1);
        assert forall|i: nat| i < u.seq && !(#[trigger] u.gone.contains(i)) implies exists|j: int|
            0 <= j < u.queue.len() && (#[trigger] u.queue[j]).seq == i by {
            assert(!t.gone.contains(i));
            let k = choose|k: int| 0 <= k < t.queue.len() && (#[trigger] t.queue[k]).seq == i;
            let j = if k < li {
                k
            } else {
                k - 1
            };
            assert(u.queue[j] == t.queue[k]);
        }
        assert forall|j: int| 0 <= j < u.queue.len() implies entry_sound(
            #[trigger] u.queue[j],
            u,
            input,
        ) by {
            assert(queue1[j] == u.queue[j]);
        }
        assert(distinct_seqs(u.queue));
        assert forall|j: int| 0 <= j < u.queue.len() implies rank_le(
            u.generation,
            u.last_key,
            (#[trigger] u.queue[j]).generation,
            u.queue[j].rec.key@,
        ) by {
            assert(queue1[j] == u.queue[j]);
        }
        assert forall|i: nat| u.gone.contains(i) implies rank_le(
            #[trigger] u.tags[i as int],
            input[i as int].key@,
            u.generation,
            u.last_key,
        ) by {
            assert(rank_le(t.tags[i as int], input[i as int].key@, x.generation, x.rec.key@));
        }
    } else {
        let r = t.rest[0];
        assert(r == input[t.seq as int]);
        let e = u.queue[u.queue.len() - 1];
        assert(e.rec == r && e.seq == t.seq);
        assert(u.rest =~= input.skip(u.seq as int));
        lemma_key_order_total(r.key@, x.rec.key@);
        assert forall|j: int| 0 <= j < u.queue.len() implies entry_sound(
            #[trigger] u.queue[j],
            u,
            input,
        ) && rank_le(u.generation, u.last_key, u.queue[j].generation, u.queue[j].rec.key@) by {
            if j < queue1.len() {
                assert(u.queue[j] == queue1[j]);
                assert(rank_le(
                    x.generation,
                    x.rec.key@,
                    queue1[j].generation,
                    queue1[j].rec.key@,
                ));
            }
        }
        assert forall|a: int, b: int| 0 <= a < b < u.queue.len() implies (#[trigger] u.queue[a]).seq
            != (#[trigger] u.queue[b]).seq by {
            assert(u.queue[a] == queue1[a]);
            if b < queue1.len() {
                assert(u.queue[b] == queue1[b]);
                let ka = if a < li {
                    a
                } else {
                    a + 1
                };
                let kb = if b < li {
                    b
                } else {
                    b + 1
                };
                assert(t.queue[ka].seq != t.queue[kb].seq);
            }
        }
        assert forall|i: nat| i < u.seq && !(#[trigger] u.gone.contains(i)) implies exists|j: int|
            0 <= j < u.queue.len() && (#[trigger] u.queue[j]).seq == i by {
            if i == t.seq {
                assert(u.queue[u.queue.len() - 1].seq == i);
            } else {
                assert(!t.gone.contains(i));
                let k = choose|k: int| 0 <= k < t.queue.len() && (#[trigger] t.queue[k]).seq == i;
                let j = if k < li {
                    k
                } else {
                    k - 1
                };
                assert(u.queue[j] == t.queue[k]);
            }
        }
        assert forall|i: nat| u.gone.contains(i) implies rank_le(
            #[trigger] u.tags[i as int],
            input[i as int].key@,
            u.generation,
            u.last_key,
        ) by {
            assert(rank_le(t.tags[i as int], input[i as int].key@, x.generation, x.rec.key@));
            assert(u.tags[i as int] == t.tags[i as int]);
        }
    }
}

proof fn lemma_after_sound(input: Seq<Rec>, cap: nat, p: nat)
    requires
        cap >= 1,
        input.len() >= 1,
        p <= input.len(),
    ensures
        sound(after(input, cap, p), input, cap, p),
    decreases p,
{
    if p == 0 {
        lemma_start_sound(input, cap);
    } else {
        lemma_after_sound(input, cap, (p - 1) as nat);
        lemma_advance_sound(after(input, cap, (p - 1) as nat), input, cap, (p - 1) as nat);
    }
}

/// A key below `b` is below every key that `b` is not above.
proof fn lemma_key_lt_then_le(a: Seq<u8>, b: Seq<u8>, c: Seq<u8>)
    requires
        a.len() == b.len(),
        b.len() == c.len(),
        key_lt(a, b),
        key_le(b, c),
    ensures
        key_lt(a, c),
{
    lemma_key_order_total(a, c);
    lemma_key_order_total(b, c);
    if !key_lt(a, c) {
        // then c is not above a, and a is below b: so c is below b
        if c == a {
        } else {
            crate::record::lemma_key_lt_transitive(c, a, b);
        }
    }
}

/// The generation that a record is given on arrival, after the record `x`
/// has left.
spec fn tag_after(x: Entry, rec: Rec) -> nat {
    if key_lt(rec.key@, x.rec.key@) {
        x.generation + 1
    } else {
        x.generation
    }
}

/// Two states have read the same records, and `b` has given none of them a
/// later generation than `a` has.
spec fn tags_not_later(b: Trace, a: Trace) -> bool {
    &&& a.seq == b.seq
    &&& forall|i: int| 0 <= i < a.seq ==> (#[trigger] b.tags[i]) <= a.tags[i]
}

/// With one more slot in the queue, the record that leaves at a step is not
/// after the record that leaves one step later with the smaller queue. Here
/// `a` is the state of the smaller queue and `b` that of the larger one, `b`
/// one step behind, so that both have read the same records.
proof fn lemma_larger_queue_is_not_behind(
    a: Trace,
    b: Trace,
    input: Seq<Rec>,
    cap: nat,
    p: nat,
)
    requires
        cap >= 1,
        p >= 1,
        p < input.len(),
        sound(a, input, cap, p),
        sound(b, input, cap + 1, (p - 1) as nat),
        tags_not_later(b, a),
    ensures
        rank_le(
            b.queue[least_index(b.queue)].generation,
            b.queue[least_index(b.queue)].rec.key@,
            a.queue[least_index(a.queue)].generation,
            a.queue[least_index(a.queue)].rec.key@,
        ),
{
    lemma_least_index(a.queue);
    lemma_least_index(b.queue);
    let xa = a.queue[least_index(a.queue)];
    let xb = b.queue[least_index(b.queue)];
    if !rank_le(xb.generation, xb.rec.key@, xa.generation, xa.rec.key@) {
        assert forall|i: nat| a.gone.contains(i) implies b.gone.contains(i) by {
            assert(rank_le(a.tags[i as int], input[i as int].key@, a.generation, a.last_key));
            assert(rank_le(a.generation, a.last_key, xa.generation, xa.rec.key@));
            lemma_rank_le_transitive(
                a.tags[i as int],
                input[i as int].key@,
                a.generation,
                a.last_key,
                xa.generation,
                xa.rec.key@,
            );
            if !b.gone.contains(i) {
                let j = choose|j: int| 0 <= j < b.queue.len() && (#[trigger] b.queue[j]).seq == i;
                let e = b.queue[j];
                assert(entry_sound(e, b, input));
                assert(entry_le(xb, e));
                assert(rank_le(xb.generation, xb.rec.key@, e.generation, e.rec.key@));
                assert(rank_le(e.generation, e.rec.key@, xa.generation, xa.rec.key@));
                lemma_rank_le_transitive(
                    xb.generation,
                    xb.rec.key@,
                    e.generation,
                    e.rec.key@,
                    xa.generation,
                    xa.rec.key@,
                );
            }
        }
        assert(a.gone.subset_of(b.gone));
        vstd::set_lib::lemma_len_subset(a.gone, b.gone);
    }
}

/// With one more slot in the queue no record is given a later generation.
/// The state of the smaller queue is taken one step further than that of the
/// larger one, so that both have read the same records.
proof fn lemma_coupled(input: Seq<Rec>, cap: nat, p: nat)
    requires
        cap >= 1,
        p < input.len(),
    ensures
        tags_not_later(after(input, cap + 1, p), after(input, cap, p + 1)),
    decreases p,
{
    lemma_after_sound(input, cap, p + 1);
    lemma_after_sound(input, cap + 1, p);
    if p > 0 {
        let a0 = after(input, cap, p);
        let b0 = after(input, cap + 1, (p - 1) as nat);
        lemma_coupled(input, cap, (p - 1) as nat);
        lemma_after_sound(input, cap, p);
        lemma_after_sound(input, cap + 1, (p - 1) as nat);
        let a = advance(a0);
        let b = advance(b0);
        assert(a == after(input, cap, p + 1));
        assert(b == after(input, cap + 1, p));
        lemma_least_index(a0.queue);
        lemma_least_index(b0.queue);
        let xa = a0.queue[least_index(a0.queue)];
        let xb = b0.queue[least_index(b0.queue)];
        if a0.rest.len() > 0 {
            let r = a0.rest[0];
            assert(r == b0.rest[0]);
            lemma_larger_queue_is_not_behind(a0, b0, input, cap, p);
            assert(tag_after(xb, r) <= tag_after(xa, r)) by {
                if xb.generation == xa.generation && key_lt(r.key@, xb.rec.key@) {
                    lemma_key_lt_then_le(r.key@, xb.rec.key@, xa.rec.key@);
                }
            }
            assert(a.tags == a0.tags.push(tag_after(xa, r)));
            assert(b.tags == b0.tags.push(tag_after(xb, r)));
            assert forall|i: int| 0 <= i < a.seq implies (#[trigger] b.tags[i]) <= a.tags[i] by {
                if i < a0.seq {
                    assert(b0.tags[i] <= a0.tags[i]);
                }
            }
        } else {
            assert(b0.rest.len() == 0);
            assert forall|i: int| 0 <= i < a.seq implies (#[trigger] b.tags[i]) <= a.tags[i] by {
                assert(b0.tags[i] <= a0.tags[i]);
            }
        }
    }
}

/// One more slot in the queue never gives more runs.
pub proof fn theorem_one_more_slot_gives_no_more_runs(input: Seq<Rec>, cap: nat)
    requires
        cap >= 1,
    ensures
        runs_of(input, cap + 1).len() <= runs_of(input, cap).len(),
{
    if input.len() > 0 {
        let n = input.len();
        let a = after(input, cap, n);
        let b0 = after(input, cap + 1, (n - 1) as nat);
        let b = after(input, cap + 1, n);
        lemma_after_sound(input, cap, n);
        lemma_after_sound(input, cap + 1, (n - 1) as nat);
        lemma_after_sound(input, cap + 1, n);
        lemma_coupled(input, cap, (n - 1) as nat);
        assert(b == advance(b0));
        assert(b0.rest.len() == 0);
        assert(b.tags == b0.tags);
        let ls = b.last_seq;
        assert(b.generation == b.tags[ls as int]);
        assert(b0.tags[ls as int] <= a.tags[ls as int]);
        // with the smaller queue that record has left too, in a generation
        // that is not after the last one
        assert(a.queue.len() == 0);
        if !a.gone.contains(ls) {
            let j = choose|j: int| 0 <= j < a.queue.len() && (#[trigger] a.queue[j]).seq == ls;
        }
        assert(rank_le(a.tags[ls as int], input[ls as int].key@, a.generation, a.last_key));
        assert(b.queue.len() == 0);
        assert(runs_of(input, cap) == a.runs);
        assert(runs_of(input, cap + 1) == b.runs);
    }
}

/// The number of runs never grows with the capacity: of two queues that hold
/// at least one record each, the larger gives no more runs of an input than
/// the smaller.
pub proof fn theorem_run_count_never_grows_with_capacity(input: Seq<Rec>, small: nat, large: nat)
    requires
        1 <= small <= large,
    ensures
        runs_of(input, large).len() <= runs_of(input, small).len(),
    decreases large - small,
{
    if small < large {
        theorem_run_count_never_grows_with_capacity(input, small, (large - 1) as nat);
        theorem_one_more_slot_gives_no_more_runs(input, (large - 1) as nat);
    }
}

} // verus!
