use crate::record::{entry_le, entry_lt, key_le, key_lt, lemma_key_le_transitive, Entry, Rec};
use crate::engine::{lemma_least_index, least_index};
use crate::replacement_selection::{drain, extend_runs, primed, runs_of};
use vstd::arithmetic::div_mod::{lemma_basic_div, lemma_div_plus_one};
use vstd::multiset::{lemma_multiset_empty_len, Multiset};
use vstd::prelude::*;
use vstd::seq_lib::{
    lemma_multiset_commutative, to_multiset_build, to_multiset_contains, to_multiset_insert,
    to_multiset_len, to_multiset_remove,
};

verus! {

/// All the records of `runs`, each as often as it occurs.
pub open spec fn records_in(runs: Seq<Seq<Rec>>) -> Multiset<Rec>
    decreases runs.len(),
{
    if runs.len() == 0 {
        Multiset::empty()
    } else {
        records_in(runs.drop_last()).add(runs.last().to_multiset())
    }
}

/// The records that a queue holds, in the queue's order.
pub open spec fn queued_records(q: Seq<Entry>) -> Seq<Rec> {
    q.map_values(|e: Entry| e.rec)
}

proof fn lemma_empty_seq_has_no_records()
    ensures
        Seq::<Rec>::empty().to_multiset() == Multiset::<Rec>::empty(),
{
    to_multiset_len(Seq::<Rec>::empty());
    lemma_multiset_empty_len(Seq::<Rec>::empty().to_multiset());
}

proof fn lemma_extend_adds_record(runs: Seq<Seq<Rec>>, same_run: bool, rec: Rec)
    ensures
        records_in(extend_runs(runs, same_run, rec)) == records_in(runs).insert(rec),
{
    broadcast use vstd::multiset::group_multiset_axioms;

    if same_run && runs.len() > 0 {
        let grown = runs.update(runs.len() - 1, runs.last().push(rec));
        assert(grown.drop_last() =~= runs.drop_last());
        to_multiset_build(runs.last(), rec);
        assert(records_in(grown) =~= records_in(runs).insert(rec));
    } else {
        let grown = runs.push(seq![rec]);
        assert(grown.drop_last() =~= runs);
        lemma_empty_seq_has_no_records();
        to_multiset_build(Seq::<Rec>::empty(), rec);
        assert(seq![rec] =~= Seq::<Rec>::empty().push(rec));
        assert(records_in(grown) =~= records_in(runs).insert(rec));
    }
}

/// From any state on, what comes out in the end is what the runs so far, the
/// queue and the unread input hold together.
proof fn lemma_drain_keeps_records(
    queue: Seq<Entry>,
    rest: Seq<Rec>,
    generation: nat,
    seq: nat,
    runs: Seq<Seq<Rec>>,
)
    requires
        queue.len() == 0 ==> rest.len() == 0,
    ensures
        records_in(drain(queue, rest, generation, seq, runs)) == records_in(runs).add(
            queued_records(queue).to_multiset(),
        ).add(rest.to_multiset()),
    decreases queue.len() + rest.len(),
{
    broadcast use vstd::multiset::group_multiset_axioms;

    if queue.len() == 0 {
        assert(queued_records(queue) =~= Seq::<Rec>::empty());
        lemma_empty_seq_has_no_records();
        assert(rest =~= Seq::<Rec>::empty());
        assert(records_in(runs) =~= records_in(runs).add(
            queued_records(queue).to_multiset(),
        ).add(rest.to_multiset()));
    } else {
        lemma_least_index(queue);
        let i = least_index(queue);
        let x = queue[i];
        let runs1 = extend_runs(runs, x.generation == generation, x.rec);
        let queue1 = queue.remove(i);
        lemma_extend_adds_record(runs, x.generation == generation, x.rec);
        assert(queued_records(queue1) =~= queued_records(queue).remove(i));
        to_multiset_remove(queued_records(queue), i);
        to_multiset_contains(queued_records(queue), x.rec);
        assert(queued_records(queue)[i] == x.rec);
        assert(queued_records(queue).contains(x.rec));
        if rest.len() == 0 {
            lemma_drain_keeps_records(queue1, rest, x.generation, seq, runs1);
            assert(records_in(runs1).add(queued_records(queue1).to_multiset()).add(
                rest.to_multiset(),
            ) =~= records_in(runs).add(queued_records(queue).to_multiset()).add(
                rest.to_multiset(),
            ));
        } else {
            let g = if crate::record::key_lt(rest[0].key@, x.rec.key@) {
                x.generation + 1
            } else {
                x.generation
            };
            let entry = Entry { rec: rest[0], generation: g, seq: seq };
            let queue2 = queue1.push(entry);
            lemma_drain_keeps_records(queue2, rest.drop_first(), x.generation, seq + 1, runs1);
            assert(queued_records(queue2) =~= queued_records(queue1).push(rest[0]));
            to_multiset_build(queued_records(queue1), rest[0]);
            assert(rest.drop_first().insert(0, rest[0]) =~= rest);
            to_multiset_insert(rest.drop_first(), 0, rest[0]);
            assert(records_in(runs1).add(queued_records(queue2).to_multiset()).add(
                rest.drop_first().to_multiset(),
            ) =~= records_in(runs).add(queued_records(queue).to_multiset()).add(
                rest.to_multiset(),
            ));
        }
    }
}

/// Nothing is lost, made twice or changed: with a queue that holds at least
/// one record, the runs together hold the records of the input, each as often
/// as the input does.
pub proof fn theorem_runs_keep_the_records(input: Seq<Rec>, cap: nat)
    requires
        cap >= 1,
    ensures
        records_in(runs_of(input, cap)) == input.to_multiset(),
{
    broadcast use vstd::multiset::group_multiset_axioms;

    lemma_empty_seq_has_no_records();
    if input.len() == 0 {
        assert(input =~= Seq::<Rec>::empty());
    } else {
        let n = if cap <= input.len() {
            cap
        } else {
            input.len()
        };
        let first = seq![Seq::<Rec>::empty()];
        lemma_drain_keeps_records(primed(input, n), input.skip(n as int), 0, n, first);
        assert(first.drop_last() =~= Seq::<Seq<Rec>>::empty());
        assert(records_in(Seq::<Seq<Rec>>::empty()) =~= Multiset::<Rec>::empty());
        assert(first.last() =~= Seq::<Rec>::empty());
        assert(records_in(first) =~= Multiset::<Rec>::empty());
        assert(queued_records(primed(input, n)) =~= input.take(n as int));
        lemma_multiset_commutative(input.take(n as int), input.skip(n as int));
        assert(input.take(n as int) + input.skip(n as int) =~= input);
    }
}

/// The keys of `run` never go down: no record has a key below that of a
/// record before it.
pub open spec fn is_ascending(run: Seq<Rec>) -> bool {
    forall|i: int, j: int|
        0 <= i < j < run.len() ==> key_le((#[trigger] run[i]).key@, (#[trigger] run[j]).key@)
}

/// No queued record is of a generation before `generation`, and those of
/// `generation` have keys that are not below the last key of the run being
/// written.
spec fn queue_fits(queue: Seq<Entry>, generation: nat, runs: Seq<Seq<Rec>>) -> bool {
    forall|i: int|
        0 <= i < queue.len() ==> {
            &&& (#[trigger] queue[i]).generation >= generation
            &&& (queue[i].generation == generation && runs.len() > 0 && runs.last().len() > 0
                ==> key_le(runs.last().last().key@, queue[i].rec.key@))
        }
}

proof fn lemma_push_keeps_ascending(run: Seq<Rec>, rec: Rec)
    requires
        is_ascending(run),
        run.len() > 0 ==> key_le(run.last().key@, rec.key@),
    ensures
        is_ascending(run.push(rec)),
{
    let grown = run.push(rec);
    assert forall|i: int, j: int| 0 <= i < j < grown.len() implies key_le(
        (#[trigger] grown[i]).key@,
        (#[trigger] grown[j]).key@,
    ) by {
        if j < run.len() {
            assert(key_le(run[i].key@, run[j].key@));
        } else if i < run.len() - 1 {
            assert(key_le(run[i].key@, run[run.len() - 1].key@));
            lemma_key_le_transitive(run[i].key@, run.last().key@, rec.key@);
        }
    }
}

proof fn lemma_drain_runs_ascending(
    queue: Seq<Entry>,
    rest: Seq<Rec>,
    generation: nat,
    seq: nat,
    runs: Seq<Seq<Rec>>,
)
    requires
        forall|k: int| 0 <= k < runs.len() ==> is_ascending(#[trigger] runs[k]),
        queue_fits(queue, generation, runs),
    ensures
        forall|k: int|
            0 <= k < drain(queue, rest, generation, seq, runs).len() ==> is_ascending(
                #[trigger] drain(queue, rest, generation, seq, runs)[k],
            ),
    decreases queue.len() + rest.len(),
{
    if queue.len() > 0 {
        lemma_least_index(queue);
        let i = least_index(queue);
        let x = queue[i];
        let same = x.generation == generation;
        let runs1 = extend_runs(runs, same, x.rec);
        let queue1 = queue.remove(i);
        if same && runs.len() > 0 {
            lemma_push_keeps_ascending(runs.last(), x.rec);
        } else {
            assert(is_ascending(seq![x.rec]));
        }
        assert forall|k: int| 0 <= k < runs1.len() implies is_ascending(#[trigger] runs1[k]) by {
            if k < runs1.len() - 1 {
                assert(runs1[k] == runs[k]);
            }
        }
        assert(runs1.len() > 0 && runs1.last().len() > 0 && runs1.last().last() == x.rec);
        assert forall|j: int| 0 <= j < queue1.len() implies {
            &&& (#[trigger] queue1[j]).generation >= x.generation
            &&& (queue1[j].generation == x.generation ==> key_le(x.rec.key@, queue1[j].rec.key@))
        } by {
            let k = if j < i {
                j
            } else {
                j + 1
            };
            assert(queue1[j] == queue[k]);
            assert(entry_le(x, queue[k]));
        }
        if rest.len() == 0 {
            lemma_drain_runs_ascending(queue1, rest, x.generation, seq, runs1);
            assert(drain(queue, rest, generation, seq, runs) == drain(
                queue1,
                rest,
                x.generation,
                seq,
                runs1,
            ));
        } else {
            let g = if key_lt(rest[0].key@, x.rec.key@) {
                x.generation + 1
            } else {
                x.generation
            };
            let queue2 = queue1.push(Entry { rec: rest[0], generation: g, seq: seq });
            assert forall|j: int| 0 <= j < queue2.len() implies {
                &&& (#[trigger] queue2[j]).generation >= x.generation
                &&& (queue2[j].generation == x.generation ==> key_le(
                    x.rec.key@,
                    queue2[j].rec.key@,
                ))
            } by {
                if j < queue1.len() {
                    assert(queue2[j] == queue1[j]);
                }
            }
            lemma_drain_runs_ascending(queue2, rest.drop_first(), x.generation, seq + 1, runs1);
            assert(drain(queue, rest, generation, seq, runs) == drain(
                queue2,
                rest.drop_first(),
                x.generation,
                seq + 1,
                runs1,
            ));
        }
    }
}

/// Every run is in order: read from its first record to its last, the keys
/// never go down.
pub proof fn theorem_every_run_is_ascending(input: Seq<Rec>, cap: nat, k: int)
    requires
        0 <= k < runs_of(input, cap).len(),
    ensures
        is_ascending(runs_of(input, cap)[k]),
{
    if cap > 0 && input.len() > 0 {
        let n = if cap <= input.len() {
            cap
        } else {
            input.len()
        };
        let first = seq![Seq::<Rec>::empty()];
        assert(is_ascending(first[0]));
        lemma_drain_runs_ascending(primed(input, n), input.skip(n as int), 0, n, first);
    }
}

/// An empty input gives no run, whatever the queue holds.
pub proof fn theorem_empty_input_gives_no_run(cap: nat)
    ensures
        runs_of(Seq::<Rec>::empty(), cap) == Seq::<Seq<Rec>>::empty(),
{
}

/// An input of one record gives one run, and that record is all it holds.
pub proof fn theorem_single_record_gives_one_run(rec: Rec, cap: nat)
    requires
        cap >= 1,
    ensures
        runs_of(seq![rec], cap) == seq![seq![rec]],
{
    let input = seq![rec];
    let queue = primed(input, 1);
    let rest = input.skip(1);
    let first = seq![Seq::<Rec>::empty()];
    lemma_least_index(queue);
    let x = queue[least_index(queue)];
    assert(x == queue[0]);
    let runs1 = extend_runs(first, true, x.rec);
    assert(runs1 =~= seq![seq![rec]]);
    assert(queue.remove(least_index(queue)).len() == 0);
    assert(rest.len() == 0);
    assert(drain(queue.remove(least_index(queue)), rest, 0, 1, runs1) == runs1);
    assert(drain(queue, rest, 0, 1, first) == runs1);
}

/// No key of the queue is above a key of the unread input, and all queued
/// records are of one generation.
spec fn queue_below_rest(queue: Seq<Entry>, rest: Seq<Rec>, generation: nat) -> bool {
    &&& forall|i: int| 0 <= i < queue.len() ==> (#[trigger] queue[i]).generation == generation
    &&& forall|i: int, j: int|
        0 <= i < queue.len() && 0 <= j < rest.len() ==> key_le(
            (#[trigger] queue[i]).rec.key@,
            (#[trigger] rest[j]).key@,
        )
}

proof fn lemma_drain_ascending_rest_keeps_one_run(
    queue: Seq<Entry>,
    rest: Seq<Rec>,
    generation: nat,
    seq: nat,
    runs: Seq<Seq<Rec>>,
)
    requires
        runs.len() == 1,
        is_ascending(rest),
        queue_below_rest(queue, rest, generation),
    ensures
        drain(queue, rest, generation, seq, runs).len() == 1,
    decreases queue.len() + rest.len(),
{
    if queue.len() > 0 {
        lemma_least_index(queue);
        let i = least_index(queue);
        let x = queue[i];
        let runs1 = extend_runs(runs, true, x.rec);
        let queue1 = queue.remove(i);
        assert forall|j: int| 0 <= j < queue1.len() implies #[trigger] queue1[j] == queue[if j
            < i {
            j
        } else {
            j + 1
        }] by {}
        if rest.len() == 0 {
            assert(queue_below_rest(queue1, rest, generation));
            lemma_drain_ascending_rest_keeps_one_run(queue1, rest, generation, seq, runs1);
        } else {
            assert(key_le(queue[i].rec.key@, rest[0].key@));
            let queue2 = queue1.push(Entry { rec: rest[0], generation: generation, seq: seq });
            let rest1 = rest.drop_first();
            assert forall|a: int, b: int| 0 <= a < b < rest1.len() implies key_le(
                (#[trigger] rest1[a]).key@,
                (#[trigger] rest1[b]).key@,
            ) by {
                assert(key_le(rest[a + 1].key@, rest[b + 1].key@));
            }
            assert forall|a: int, b: int|
                0 <= a < queue2.len() && 0 <= b < rest1.len() implies key_le(
                (#[trigger] queue2[a]).rec.key@,
                (#[trigger] rest1[b]).key@,
            ) by {
                if a < queue1.len() {
                    let k = if a < i {
                        a
                    } else {
                        a + 1
                    };
                    assert(queue2[a] == queue[k]);
                    assert(key_le(queue[k].rec.key@, rest[b + 1].key@));
                } else {
                    assert(key_le(rest[0].key@, rest[b + 1].key@));
                }
            }
            assert forall|a: int| 0 <= a < queue2.len() implies (#[trigger] queue2[a]).generation
                == generation by {
                if a < queue1.len() {
                    assert(queue2[a] == queue1[a]);
                }
            }
            lemma_drain_ascending_rest_keeps_one_run(queue2, rest1, generation, seq + 1, runs1);
        }
    }
}

/// An input whose keys never go down gives exactly one run, with any queue
/// that holds at least one record.
pub proof fn theorem_ascending_input_gives_one_run(input: Seq<Rec>, cap: nat)
    requires
        cap >= 1,
        input.len() >= 1,
        is_ascending(input),
    ensures
        runs_of(input, cap).len() == 1,
{
    let n = if cap <= input.len() {
        cap
    } else {
        input.len()
    };
    let queue = primed(input, n);
    let rest = input.skip(n as int);
    assert forall|a: int, b: int| 0 <= a < b < rest.len() implies key_le(
        (#[trigger] rest[a]).key@,
        (#[trigger] rest[b]).key@,
    ) by {
        assert(key_le(input[n + a].key@, input[n + b].key@));
    }
    assert forall|a: int, b: int| 0 <= a < queue.len() && 0 <= b < rest.len() implies key_le(
        (#[trigger] queue[a]).rec.key@,
        (#[trigger] rest[b]).key@,
    ) by {
        assert(key_le(input[a].key@, input[n + b].key@));
    }
    lemma_drain_ascending_rest_keeps_one_run(queue, rest, 0, n, seq![Seq::<Rec>::empty()]);
}

/// The keys of `input` go down at every step: each record has a key below
/// that of every record before it.
pub open spec fn is_strictly_descending(input: Seq<Rec>) -> bool {
    forall|i: int, j: int|
        0 <= i < j < input.len() ==> key_lt((#[trigger] input[j]).key@, (#[trigger] input[i]).key@)
}

/// `n` divided by `d`, rounded up.
pub open spec fn div_ceil(n: int, d: int) -> int {
    (n + d - 1) / d
}

proof fn lemma_div_ceil_step(n: int, d: int)
    requires
        0 <= n,
        0 < d,
    ensures
        div_ceil(n + d, d) == 1 + div_ceil(n, d),
        0 < n <= d ==> div_ceil(n, d) == 1,
        div_ceil(0, d) == 0,
{
    lemma_div_plus_one(n + d - 1, d);
    lemma_basic_div(d - 1, d);
    if 0 < n <= d {
        lemma_basic_div(n - 1, d);
        lemma_div_plus_one(n - 1, d);
    }
}

/// The state of a queue while a strictly descending input is worked off. The
/// first `active` queued records are of the generation being written, the
/// others of the next one. Along the queue and on into the unread input the
/// keys go down at every step. The queue is full as long as input is left.
spec fn descending_state(
    queue: Seq<Entry>,
    rest: Seq<Rec>,
    generation: nat,
    active: int,
    cap: nat,
) -> bool {
    &&& 0 <= active <= queue.len() <= cap
    &&& rest.len() > 0 ==> queue.len() == cap
    &&& forall|i: int| 0 <= i < active ==> (#[trigger] queue[i]).generation == generation
    &&& forall|i: int|
        active <= i < queue.len() ==> (#[trigger] queue[i]).generation == generation + 1
    &&& forall|i: int, j: int|
        0 <= i < j < queue.len() ==> key_lt(
            (#[trigger] queue[j]).rec.key@,
            (#[trigger] queue[i]).rec.key@,
        )
    &&& forall|i: int, j: int|
        0 <= i < queue.len() && 0 <= j < rest.len() ==> key_lt(
            (#[trigger] rest[j]).key@,
            (#[trigger] queue[i]).rec.key@,
        )
    &&& is_strictly_descending(rest)
}

/// In such a state the record that leaves next is the last of the active
/// ones or, where none is active, the last of the queue.
proof fn lemma_descending_least(
    queue: Seq<Entry>,
    rest: Seq<Rec>,
    generation: nat,
    active: int,
    cap: nat,
)
    requires
        descending_state(queue, rest, generation, active, cap),
        queue.len() > 0,
    ensures
        least_index(queue) == if active > 0 {
            active - 1
        } else {
            queue.len() - 1
        },
{
    let k = if active > 0 {
        active - 1
    } else {
        queue.len() - 1
    };
    assert forall|j: int| 0 <= j < queue.len() && j != k implies entry_lt(queue[k], queue[j]) by {
        if j < k {
            assert(key_lt(queue[k].rec.key@, queue[j].rec.key@));
        }
    }
    lemma_least_index(queue);
    let i = least_index(queue);
    if i != k {
        assert(entry_le(queue[i], queue[k]));
        assert(entry_lt(queue[k], queue[i]));
    }
}

proof fn lemma_drain_descending_count(
    queue: Seq<Entry>,
    rest: Seq<Rec>,
    generation: nat,
    seq: nat,
    runs: Seq<Seq<Rec>>,
    active: int,
    cap: nat,
)
    requires
        cap >= 1,
        runs.len() >= 1,
        descending_state(queue, rest, generation, active, cap),
    ensures
        drain(queue, rest, generation, seq, runs).len() == runs.len() + div_ceil(
            queue.len() - active + rest.len(),
            cap as int,
        ),
    decreases queue.len() + rest.len(),
{
    let h = cap as int;
    if queue.len() == 0 {
        lemma_div_ceil_step(0, h);
    } else {
        lemma_descending_least(queue, rest, generation, active, cap);
        let i = least_index(queue);
        let x = queue[i];
        let runs1 = extend_runs(runs, x.generation == generation, x.rec);
        let queue1 = queue.remove(i);
        let active1 = if active > 0 {
            active - 1
        } else {
            queue.len() - 1
        };
        assert forall|j: int| 0 <= j < queue1.len() implies #[trigger] queue1[j] == queue[if j
            < i {
            j
        } else {
            j + 1
        }] by {}
        if rest.len() == 0 {
            assert(descending_state(queue1, rest, x.generation, active1, cap));
            lemma_drain_descending_count(queue1, rest, x.generation, seq, runs1, active1, cap);
            if active == 0 {
                lemma_div_ceil_step(queue.len() as int, h);
                lemma_div_ceil_step(0, h);
            }
        } else {
            assert(key_lt(rest[0].key@, queue[i].rec.key@));
            let entry = Entry { rec: rest[0], generation: x.generation + 1, seq: seq };
            let queue2 = queue1.push(entry);
            let rest1 = rest.drop_first();
            assert forall|a: int, b: int| 0 <= a < b < rest1.len() implies key_lt(
                (#[trigger] rest1[b]).key@,
                (#[trigger] rest1[a]).key@,
            ) by {
                assert(key_lt(rest[b + 1].key@, rest[a + 1].key@));
            }
            assert forall|a: int, b: int| 0 <= a < b < queue2.len() implies key_lt(
                (#[trigger] queue2[b]).rec.key@,
                (#[trigger] queue2[a]).rec.key@,
            ) by {
                let ka = if a < i {
                    a
                } else {
                    a + 1
                };
                assert(queue2[a] == queue[ka]);
                if b < queue1.len() {
                    let kb = if b < i {
                        b
                    } else {
                        b + 1
                    };
                    assert(queue2[b] == queue[kb]);
                    assert(key_lt(queue[kb].rec.key@, queue[ka].rec.key@));
                } else {
                    assert(key_lt(rest[0].key@, queue[ka].rec.key@));
                }
            }
            assert forall|a: int, b: int|
                0 <= a < queue2.len() && 0 <= b < rest1.len() implies key_lt(
                (#[trigger] rest1[b]).key@,
                (#[trigger] queue2[a]).rec.key@,
            ) by {
                if a < queue1.len() {
                    let ka = if a < i {
                        a
                    } else {
                        a + 1
                    };
                    assert(queue2[a] == queue[ka]);
                    assert(key_lt(rest[b + 1].key@, queue[ka].rec.key@));
                } else {
                    assert(key_lt(rest[b + 1].key@, rest[0].key@));
                }
            }
            assert forall|a: int| 0 <= a < active1 implies (#[trigger] queue2[a]).generation
                == x.generation by {
                assert(queue2[a] == queue[if a < i {
                    a
                } else {
                    a + 1
                }]);
            }
            assert forall|a: int| active1 <= a < queue2.len() implies (
            #[trigger] queue2[a]).generation == x.generation + 1 by {
                if a < queue1.len() {
                    assert(queue2[a] == queue[if a < i {
                        a
                    } else {
                        a + 1
                    }]);
                }
            }
            assert(descending_state(queue2, rest1, x.generation, active1, cap));
            lemma_drain_descending_count(
                queue2,
                rest1,
                x.generation,
                seq + 1,
                runs1,
                active1,
                cap,
            );
            if active == 0 {
                lemma_div_ceil_step(rest.len() as int, h);
            }
        }
    }
}

/// The worst case: an input whose keys go down at every step gives as many
/// runs as it takes to hold its records `cap` to a run, the last run with
/// what is left.
pub proof fn theorem_descending_input_run_count(input: Seq<Rec>, cap: nat)
    requires
        cap >= 1,
        is_strictly_descending(input),
    ensures
        runs_of(input, cap).len() == div_ceil(input.len() as int, cap as int),
{
    let h = cap as int;
    if input.len() == 0 {
        lemma_div_ceil_step(0, h);
    } else {
        let n = if cap <= input.len() {
            cap
        } else {
            input.len()
        };
        let queue = primed(input, n);
        let rest = input.skip(n as int);
        assert forall|a: int, b: int| 0 <= a < b < rest.len() implies key_lt(
            (#[trigger] rest[b]).key@,
            (#[trigger] rest[a]).key@,
        ) by {
            assert(key_lt(input[n + b].key@, input[n + a].key@));
        }
        assert forall|a: int, b: int| 0 <= a < b < queue.len() implies key_lt(
            (#[trigger] queue[b]).rec.key@,
            (#[trigger] queue[a]).rec.key@,
        ) by {
            assert(key_lt(input[b].key@, input[a].key@));
        }
        assert forall|a: int, b: int| 0 <= a < queue.len() && 0 <= b < rest.len() implies key_lt(
            (#[trigger] rest[b]).key@,
            (#[trigger] queue[a]).rec.key@,
        ) by {
            assert(key_lt(input[n + b].key@, input[a].key@));
        }
        assert(descending_state(queue, rest, 0, n as int, cap));
        lemma_drain_descending_count(
            queue,
            rest,
            0,
            n,
            seq![Seq::<Rec>::empty()],
            n as int,
            cap,
        );
        if input.len() <= cap {
            lemma_div_ceil_step(input.len() as int, h);
            lemma_div_ceil_step(0, h);
        } else {
            lemma_div_ceil_step(input.len() - cap, h);
        }
    }
}

} // verus!
