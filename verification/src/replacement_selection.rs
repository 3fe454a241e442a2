use crate::engine::{lemma_least_index, least_index, EngineState, SelectionEngine, Step};
use crate::io::{
    frame, frames, input_error, is_record_at, is_record_at_front, lemma_flush_writes_out,
    lemma_frames_len, lemma_nothing_taken, lemma_record_at_unique, lemma_write_appends,
    next_record_error, open_run_writer, read_gensort_record, records_of, spec_run_file_name,
    write_len_key_len_payload, DirectReader, ReadError, RunFile,
};
use crate::record::{key_lt, Entry, Rec};
use vstd::prelude::*;

verus! {

/// The runs after one more record has left the queue: it goes to the end of
/// the last run, or starts a new run.
pub open spec fn extend_runs(runs: Seq<Seq<Rec>>, same_run: bool, rec: Rec) -> Seq<Seq<Rec>> {
    if same_run && runs.len() > 0 {
        runs.update(runs.len() - 1, runs.last().push(rec))
    } else {
        runs.push(seq![rec])
    }
}

/// Replacement selection from a given state to the end of the input.
///
/// `queue` holds the queued records in the order of their arrival, `rest` is
/// the input not yet read, `generation` is the generation of the run being
/// written, `seq` the next sequence number, and `runs` the runs so far, the
/// last of them the one being written. Each step takes the least queued record
/// out. It goes to the run being written if it is of that run's generation,
/// and starts the next run if not. Then one record of the input, if any is
/// left, takes its place in the queue: in the generation of the record that
/// just left where its key is not below that record's key, and in the next
/// generation where it is.
pub open spec fn drain(
    queue: Seq<Entry>,
    rest: Seq<Rec>,
    generation: nat,
    seq: nat,
    runs: Seq<Seq<Rec>>,
) -> Seq<Seq<Rec>>
    decreases queue.len() + rest.len(),
{
    if queue.len() == 0 {
        runs
    } else {
        proof {
            lemma_least_index(queue);
        }
        let i = least_index(queue);
        let x = queue[i];
        let runs1 = extend_runs(runs, x.generation == generation, x.rec);
        let queue1 = queue.remove(i);
        if rest.len() == 0 {
            drain(queue1, rest, x.generation, seq, runs1)
        } else {
            let g = if key_lt(rest[0].key@, x.rec.key@) {
                x.generation + 1
            } else {
                x.generation
            };
            drain(
                queue1.push(Entry { rec: rest[0], generation: g, seq: seq }),
                rest.drop_first(),
                x.generation,
                seq + 1,
                runs1,
            )
        }
    }
}

/// The queue after priming: the first `n` records of the input, all of
/// generation 0, numbered in the order of their arrival.
pub open spec fn primed(input: Seq<Rec>, n: nat) -> Seq<Entry> {
    Seq::new(n, |i: int| Entry { rec: input[i], generation: 0, seq: i as nat })
}

/// The runs that replacement selection with a queue of `cap` records makes of
/// `input`: none where the input is empty or the queue holds nothing.
pub open spec fn runs_of(input: Seq<Rec>, cap: nat) -> Seq<Seq<Rec>> {
    if cap == 0 || input.len() == 0 {
        Seq::empty()
    } else {
        let n = if cap <= input.len() {
            cap
        } else {
            input.len()
        };
        drain(primed(input, n), input.skip(n as int), 0, n, seq![Seq::<Rec>::empty()])
    }
}

/// `file` is the file of run `idx`: it has that run's name and holds the
/// frames of its records.
pub open spec fn is_run_file(file: RunFile, prefix: Seq<char>, idx: nat, run: Seq<Rec>) -> bool {
    &&& file.name@ == spec_run_file_name(prefix, idx)
    &&& file.data@ == frames(run)
}

/// `files` are the files of `runs`, one each and in order.
pub open spec fn holds_runs(files: Seq<RunFile>, prefix: Seq<char>, runs: Seq<Seq<Rec>>) -> bool {
    &&& files.len() == runs.len()
    &&& forall|k: int|
        0 <= k < runs.len() ==> is_run_file(#[trigger] files[k], prefix, k as nat, runs[k])
}

/// The runs in the end, where a driver goes on from the engine's state
/// `state` with `rest` of the input unread and `runs` made so far, the last of
/// them the run in hand.
pub open spec fn runs_from(state: EngineState, rest: Seq<Rec>, runs: Seq<Seq<Rec>>) -> Seq<
    Seq<Rec>,
> {
    drain(state.queue, rest, state.generation, state.next_seq, runs)
}

/// The state after priming, and what is unread then, give the runs of the
/// input.
pub proof fn lemma_primed_gives_runs(input: Seq<Rec>, cap: nat, n: nat)
    requires
        cap >= 1,
        1 <= n <= input.len(),
        n <= cap,
        n < cap ==> n == input.len(),
    ensures
        runs_from(
            EngineState { queue: primed(input, n), next_seq: n, ..EngineState::start() },
            input.skip(n as int),
            seq![Seq::<Rec>::empty()],
        ) == runs_of(input, cap),
{
}

/// With an empty queue the runs so far are the runs.
pub proof fn lemma_done_step(state: EngineState, rest: Seq<Rec>, runs: Seq<Seq<Rec>>)
    requires
        state.queue.len() == 0,
    ensures
        runs_from(state, rest, runs) == runs,
{
}

/// Closing the run in hand and opening an empty one changes nothing of what
/// comes out in the end.
pub proof fn lemma_rotate_step(state: EngineState, rest: Seq<Rec>, runs: Seq<Seq<Rec>>)
    requires
        state.run_is_done(),
        state.least().generation == state.generation + 1,
    ensures
        runs_from(state, rest, runs) == runs_from(
            state.after_rotate(),
            rest,
            runs.push(Seq::empty()),
        ),
{
    let x = state.least();
    let grown = runs.push(Seq::<Rec>::empty());
    assert(extend_runs(runs, false, x.rec) =~= extend_runs(grown, true, x.rec));
}

/// Writing the record that left to the run in hand, and offering the engine
/// the next record of the input, if there is one, changes nothing of what
/// comes out in the end.
pub proof fn lemma_emit_step(state: EngineState, rest: Seq<Rec>, runs: Seq<Seq<Rec>>)
    requires
        state.queue.len() > 0,
        !state.run_is_done(),
        runs.len() > 0,
    ensures
        state.after_emit().queue.len() + 1 == state.queue.len(),
        rest.len() == 0 ==> runs_from(state, rest, runs) == runs_from(
            state.after_emit(),
            rest,
            runs.update(runs.len() - 1, runs.last().push(state.least().rec)),
        ),
        rest.len() > 0 ==> runs_from(state, rest, runs) == runs_from(
            state.after_emit().after_offer(rest[0]),
            rest.drop_first(),
            runs.update(runs.len() - 1, runs.last().push(state.least().rec)),
        ),
{
    lemma_least_index(state.queue);
}

/// A bound on the steps that a driver still has to take: two for each record
/// that is queued or unread, and one more where the run in hand has to be
/// closed first.
spec fn steps_left(state: EngineState, unread: nat) -> nat {
    2 * (state.queue.len() + unread) + if state.run_is_done() {
        1nat
    } else {
        0nat
    }
}

/// Run generation by replacement selection: a queue of at most `heap_cap`
/// records, and the prefix of the names of the run files.
pub struct ReplacementSelection {
    heap_cap: usize,
    out_prefix: String,
}

impl ReplacementSelection {
    /// How many records the queue holds at most.
    pub closed spec fn capacity(&self) -> nat {
        self.heap_cap as nat
    }

    /// The prefix of the names of the run files.
    pub closed spec fn prefix(&self) -> Seq<char> {
        self.out_prefix@
    }

    pub fn new(heap_cap: usize, out_prefix: String) -> (rs: Self)
        ensures
            rs.capacity() == heap_cap,
            rs.prefix() == out_prefix@,
    {
        Self { heap_cap, out_prefix }
    }

    /// Reads `rdr` to its end and adds the files of the runs to `out`, in
    /// order. Returns how many runs there are.
    ///
    /// With a capacity of 0 nothing is read and there is no run. Otherwise the
    /// input has to be whole records: where it is not, the error of the broken
    /// last record is returned. The run in hand is closed on that way out too,
    /// so the files added to `out` by then are whole run files, but not the
    /// runs of the input: they are to be thrown away.
    pub fn run(&self, rdr: DirectReader, out: &mut Vec<RunFile>) -> (res: Result<usize, ReadError>)
        requires
            rdr.wf(),
            108 * (rdr.remaining().len() / 100) <= u64::MAX,
        ensures
            final(out)@.len() >= old(out)@.len(),
            final(out)@.subrange(0, old(out)@.len() as int) == old(out)@,
            match res {
                Ok(n) => {
                    &&& self.capacity() > 0 ==> input_error(rdr.remaining()) is None
                    &&& n == runs_of(records_of(rdr.remaining()), self.capacity()).len()
                    &&& holds_runs(
                        final(out)@.skip(old(out)@.len() as int),
                        self.prefix(),
                        runs_of(records_of(rdr.remaining()), self.capacity()),
                    )
                },
                Err(e) => {
                    &&& self.capacity() > 0
                    &&& input_error(rdr.remaining()) == Some(e)
                    &&& exists|partial: Seq<Seq<Rec>>|
                        holds_runs(
                            final(out)@.skip(old(out)@.len() as int),
                            self.prefix(),
                            partial,
                        )
                },
            },
    {
        let mut reader = rdr;
        let mut engine = SelectionEngine::new(self.heap_cap);
        let ghost all = rdr.remaining();
        let ghost input = records_of(all);
        proof {
            reader.lemma_remaining_fits();
            assert(engine@.queue =~= primed(input, 0));
        }

        // Prime the queue with up to heap_cap records.
        while !engine.is_full()
            invariant
                reader.wf(),
                engine.wf(),
                engine.capacity() == self.heap_cap,
                engine@ == (EngineState { queue: primed(input, engine@.next_seq), ..engine@ }),
                engine@.generation == 0,
                engine@.in_run == 0,
                engine@.last_key is None,
                input == records_of(all),
                all == rdr.remaining(),
                engine@.next_seq <= input.len(),
                100 * engine@.next_seq <= all.len(),
                all.len() <= usize::MAX,
                reader.remaining() == all.skip(100 * (engine@.next_seq as int)),
                *out == *old(out),
            ensures
                reader.wf(),
                engine.wf(),
                engine.capacity() == self.heap_cap,
                engine@ == (EngineState { queue: primed(input, engine@.next_seq), ..engine@ }),
                engine@.generation == 0,
                engine@.in_run == 0,
                engine@.last_key is None,
                engine@.next_seq <= input.len(),
                100 * engine@.next_seq <= all.len(),
                reader.remaining() == all.skip(100 * (engine@.next_seq as int)),
                engine@.next_seq < self.heap_cap ==> reader.remaining().len() == 0,
                *out == *old(out),
            decreases self.heap_cap - engine@.next_seq,
        {
            let ghost n = engine@.next_seq as int;
            match read_gensort_record(&mut reader) {
                Err(e) => {
                    proof {
                        lemma_error_is_of_input(all, n, e);
                        assert(out@.subrange(0, old(out)@.len() as int) =~= old(out)@);
                        assert(holds_runs(
                            out@.skip(old(out)@.len() as int),
                            self.prefix(),
                            Seq::<Seq<Rec>>::empty(),
                        ));
                    }
                    return Err(e);
                },
                Ok(Some(rec)) => {
                    proof {
                        lemma_next_record(all, n, rec);
                        assert(all.skip(100 * n).skip(100) =~= all.skip(100 * (n + 1)));
                    }
                    engine.offer(rec);
                    assert(engine@.queue =~= primed(input, engine@.next_seq));
                },
                Ok(None) => {
                    break ;
                },
            }
        }

        if engine.is_empty() {
            proof {
                if self.heap_cap > 0 {
                    assert(all.len() == 0);
                    assert(all.skip(0) =~= all);
                }
                assert(out@.subrange(0, old(out)@.len() as int) =~= old(out)@);
                assert(out@.skip(old(out)@.len() as int) =~= Seq::<RunFile>::empty());
            }
            return Ok(0);
        }

        // Open the first run.
        let mut writer = open_run_writer(self.out_prefix.as_str(), engine.run_index());
        let ghost target = runs_of(input, self.heap_cap as nat);
        let ghost mut done = Seq::<Seq<Rec>>::empty();
        let ghost mut current = Seq::<Rec>::empty();
        proof {
            engine.lemma_wf();
            assert(input.skip(engine@.next_seq as int).len() == input.len() - engine@.next_seq);
            assert(done.push(current) =~= seq![Seq::<Rec>::empty()]);
            if engine@.next_seq < self.heap_cap {
                assert(all.len() == 100 * engine@.next_seq);
            }
            lemma_primed_gives_runs(input, self.heap_cap as nat, engine@.next_seq);
            assert(out@.subrange(0, old(out)@.len() as int) =~= old(out)@);
        }

        loop
            invariant
                reader.wf(),
                engine.wf(),
                writer.wf(),
                engine.capacity() == self.heap_cap,
                self.heap_cap > 0,
                input == records_of(all),
                all == rdr.remaining(),
                target == runs_of(input, self.heap_cap as nat),
                runs_from(engine@, input.skip(engine@.next_seq as int), done.push(current))
                    == target,
                engine@.next_seq <= input.len(),
                100 * engine@.next_seq <= all.len(),
                108 * (all.len() / 100) <= u64::MAX,
                all.len() <= usize::MAX,
                reader.remaining() == all.skip(100 * (engine@.next_seq as int)),
                engine@.queue.len() == 0 ==> reader.remaining().len() == 0,
                engine@.in_run == current.len(),
                done.len() == engine@.generation,
                writer.written() == frames(current),
                writer@.taken == 0,
                writer.file_name() == spec_run_file_name(self.prefix(), engine@.generation),
                out@.len() == old(out)@.len() + done.len(),
                out@.subrange(0, old(out)@.len() as int) == old(out)@,
                forall|k: int|
                    0 <= k < done.len() ==> is_run_file(
                        #[trigger] out@[old(out)@.len() + k],
                        self.prefix(),
                        k as nat,
                        done[k],
                    ),
            ensures
                writer.wf(),
                engine.wf(),
                engine@.queue.len() == 0,
                engine@.next_seq <= input.len(),
                input == records_of(all),
                all.len() <= usize::MAX,
                done.push(current) == target,
                reader.remaining().len() == 0,
                100 * engine@.next_seq <= all.len(),
                reader.remaining() == all.skip(100 * (engine@.next_seq as int)),
                done.len() == engine@.generation,
                writer.written() == frames(current),
                writer@.taken == 0,
                writer.file_name() == spec_run_file_name(self.prefix(), engine@.generation),
                out@.len() == old(out)@.len() + done.len(),
                out@.subrange(0, old(out)@.len() as int) == old(out)@,
                forall|k: int|
                    0 <= k < done.len() ==> is_run_file(
                        #[trigger] out@[old(out)@.len() + k],
                        self.prefix(),
                        k as nat,
                        done[k],
                    ),
            decreases steps_left(engine@, (input.len() - engine@.next_seq) as nat),
        {
            let ghost before = engine@;
            let ghost n = engine@.next_seq as int;
            proof {
                engine.lemma_wf();
            }
            match engine.next() {
                Step::Done => {
                    proof {
                        lemma_done_step(before, input.skip(n), done.push(current));
                    }
                    break ;
                },
                Step::Rotate => {
                    // The run in hand is done: close it and open the next one.
                    proof {
                        lemma_rotate_step(before, input.skip(n), done.push(current));
                        writer.lemma_pending_is_short();
                        lemma_flush_writes_out(writer@);
                    }
                    writer.flush();
                    proof {
                        lemma_nothing_taken(writer@);
                    }
                    let ghost files = out@;
                    out.push(writer.into_file());
                    writer = open_run_writer(self.out_prefix.as_str(), engine.run_index());
                    proof {
                        assert(out@.subrange(0, old(out)@.len() as int) =~= files.subrange(
                            0,
                            old(out)@.len() as int,
                        ));
                        done = done.push(current);
                        current = Seq::empty();
                    }
                },
                Step::Emit(rec) => {
                    // Write the record that left.
                    proof {
                        engine.lemma_wf();
                        lemma_emit_step(before, input.skip(n), done.push(current));
                        lemma_frames_len(current);
                        lemma_write_appends(writer@, frame(rec));
                    }
                    write_len_key_len_payload(&mut writer, &rec);
                    let ghost runs1 = done.push(current.push(rec));
                    proof {
                        assert(done.push(current).update(
                            done.len() as int,
                            current.push(rec),
                        ) =~= runs1);
                        assert(frames(current.push(rec)) == frames(current) + frame(rec)) by {
                            assert(current.push(rec).drop_last() =~= current);
                        }
                        current = current.push(rec);
                    }
                    // Refill: read one more record and let the engine decide its generation.
                    match read_gensort_record(&mut reader) {
                        Err(e) => {
                            proof {
                                lemma_error_is_of_input(all, n, e);
                                writer.lemma_pending_is_short();
                                lemma_flush_writes_out(writer@);
                            }
                            // The run in hand is closed on this way out too.
                            writer.flush();
                            proof {
                                lemma_nothing_taken(writer@);
                            }
                            let ghost files = out@;
                            out.push(writer.into_file());
                            proof {
                                assert(out@.subrange(0, old(out)@.len() as int)
                                    =~= files.subrange(0, old(out)@.len() as int));
                                let partial = done.push(current);
                                let added = out@.skip(old(out)@.len() as int);
                                assert forall|k: int| 0 <= k < partial.len() implies is_run_file(
                                    #[trigger] added[k],
                                    self.prefix(),
                                    k as nat,
                                    partial[k],
                                ) by {
                                    assert(added[k] == out@[old(out)@.len() + k]);
                                }
                                assert(holds_runs(added, self.prefix(), partial));
                            }
                            return Err(e);
                        },
                        Ok(Some(next_rec)) => {
                            proof {
                                lemma_next_record(all, n, next_rec);
                                assert(all.skip(100 * n).skip(100) =~= all.skip(100 * (n + 1)));
                                assert(input.skip(n).drop_first() =~= input.skip(n + 1));
                            }
                            engine.offer(next_rec);
                        },
                        Ok(None) => {
                            proof {
                                assert(input.skip(n).len() == 0);
                            }
                        },
                    }
                },
            }
        }

        proof {
            engine.lemma_wf();
            writer.lemma_pending_is_short();
            lemma_flush_writes_out(writer@);
        }
        writer.flush();
        proof {
            lemma_nothing_taken(writer@);
        }
        let ghost files = out@;
        out.push(writer.into_file());
        proof {
            assert(out@.subrange(0, old(out)@.len() as int) =~= files.subrange(
                0,
                old(out)@.len() as int,
            ));
            assert(all.skip(100 * (all.len() as int / 100)) =~= all.skip(
                100 * (engine@.next_seq as int),
            ));
            let runs = done.push(current);
            let added = out@.skip(old(out)@.len() as int);
            assert forall|k: int| 0 <= k < runs.len() implies is_run_file(
                #[trigger] added[k],
                self.prefix(),
                k as nat,
                runs[k],
            ) by {
                assert(added[k] == out@[old(out)@.len() + k]);
            }
        }
        Ok(engine.run_index() + 1)
    }
}

/// The record read after `n` whole records is the input's record `n`.
proof fn lemma_next_record(all: Seq<u8>, n: int, rec: Rec)
    requires
        0 <= n,
        100 * n <= all.len(),
        is_record_at_front(rec, all.skip(100 * n)),
    ensures
        n < records_of(all).len(),
        records_of(all)[n] == rec,
        100 * (n + 1) <= all.len(),
{
    let tail = all.skip(100 * n);
    assert(tail.subrange(0, 10) =~= all.subrange(100 * n, 100 * n + 10));
    assert(tail.subrange(10, 100) =~= all.subrange(100 * n + 10, 100 * n + 100));
    assert(is_record_at(rec, all, n));
    lemma_record_at_unique(rec, all, n);
}

/// An error met after `n` whole records is the error of the input.
proof fn lemma_error_is_of_input(all: Seq<u8>, n: int, e: ReadError)
    requires
        0 <= n,
        100 * n <= all.len(),
        next_record_error(all.skip(100 * n)) == Some(e),
    ensures
        input_error(all) == Some(e),
{
    let tail = all.skip(100 * n);
    assert(0 < tail.len() < 100);
    assert(n == all.len() as int / 100);
}

} // verus!
