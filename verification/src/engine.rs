use crate::heap::{is_least, MinHeap};
use crate::record::{entry_le, key_less, key_lt, lemma_entry_order_total, Entry, Item, Rec};
use vstd::multiset::lemma_multiset_empty_len;
use vstd::prelude::*;
use vstd::seq_lib::{to_multiset_build, to_multiset_contains, to_multiset_len, to_multiset_remove};

verus! {

/// Slot `i` of `q` holds a queued record that nothing in `q` comes before.
pub open spec fn is_least_at(q: Seq<Entry>, i: int) -> bool {
    &&& 0 <= i < q.len()
    &&& forall|j: int| 0 <= j < q.len() ==> entry_le(q[i], #[trigger] q[j])
}

/// A slot of `q` that holds a least queued record. Where sequence numbers
/// differ there is one such slot only.
pub open spec fn least_index(q: Seq<Entry>) -> int {
    choose|i: int| is_least_at(q, i)
}

proof fn lemma_least_in_prefix(q: Seq<Entry>, n: int) -> (i: int)
    requires
        0 < n <= q.len(),
    ensures
        0 <= i < n,
        forall|j: int| 0 <= j < n ==> entry_le(q[i], #[trigger] q[j]),
    decreases n,
{
    if n == 1 {
        lemma_entry_order_total(q[0], q[0]);
        0
    } else {
        let i = lemma_least_in_prefix(q, n - 1);
        lemma_entry_order_total(q[i], q[n - 1]);
        lemma_entry_order_total(q[n - 1], q[n - 1]);
        if entry_le(q[i], q[n - 1]) {
            i
        } else {
            assert forall|j: int| 0 <= j < n implies entry_le(q[n - 1], #[trigger] q[j]) by {
                if j < n - 1 {
                    crate::record::lemma_entry_le_transitive(q[n - 1], q[i], q[j]);
                }
            }
            n - 1
        }
    }
}

/// A queue that is not empty has a least record.
pub proof fn lemma_least_index(q: Seq<Entry>)
    requires
        q.len() > 0,
    ensures
        is_least_at(q, least_index(q)),
{
    let i = lemma_least_in_prefix(q, q.len() as int);
    assert(is_least_at(q, i));
}

/// No two queued records have one sequence number.
pub open spec fn distinct_seqs(q: Seq<Entry>) -> bool {
    forall|i: int, j: int| 0 <= i < j < q.len() ==> (#[trigger] q[i]).seq != (#[trigger] q[j]).seq
}

/// With distinct sequence numbers, the least record of the queue is the one
/// at `least_index`.
proof fn lemma_least_is_unique(q: Seq<Entry>, e: Entry)
    requires
        distinct_seqs(q),
        is_least(e, q.to_multiset()),
    ensures
        q.len() > 0,
        is_least_at(q, least_index(q)),
        q[least_index(q)] == e,
{
    to_multiset_contains(q, e);
    let k = choose|k: int| 0 <= k < q.len() && q[k] == e;
    lemma_least_index(q);
    let i = least_index(q);
    to_multiset_contains(q, q[i]);
    assert(q.contains(q[i]));
    assert(entry_le(e, q[i]));
    assert(entry_le(q[i], q[k]));
    lemma_entry_order_total(q[i], q[k]);
    if i < k {
        assert(q[i].seq != q[k].seq);
    } else if k < i {
        assert(q[k].seq != q[i].seq);
    }
}

/// The state of replacement selection, as the contracts speak of it.
pub struct EngineState {
    /// The queued records, in the order of their arrival.
    pub queue: Seq<Entry>,
    /// The generation of the run being written. It is also that run's index.
    pub generation: nat,
    /// The sequence number that the next record to arrive is given.
    pub next_seq: nat,
    /// How many records have left into the run being written.
    pub in_run: nat,
    /// The key of the record that left last into the run being written.
    pub last_key: Option<Seq<u8>>,
}

impl EngineState {
    /// The state at the start: nothing queued, the first run not begun.
    pub open spec fn start() -> EngineState {
        EngineState { queue: Seq::empty(), generation: 0, next_seq: 0, in_run: 0, last_key: None }
    }

    /// The generation that `rec` is given if it arrives now: that of the run
    /// being written, unless its key is below the key that left last, which
    /// puts it off to the next run.
    pub open spec fn generation_for(self, rec: Rec) -> nat {
        match self.last_key {
            Some(last) => if key_lt(rec.key@, last) {
                self.generation + 1
            } else {
                self.generation
            },
            None => self.generation,
        }
    }

    /// The state after `rec` has arrived.
    pub open spec fn after_offer(self, rec: Rec) -> EngineState {
        EngineState {
            queue: self.queue.push(
                Entry { rec, generation: self.generation_for(rec), seq: self.next_seq },
            ),
            next_seq: self.next_seq + 1,
            ..self
        }
    }

    /// The least queued record.
    pub open spec fn least(self) -> Entry {
        self.queue[least_index(self.queue)]
    }

    /// The run being written is done: records are queued, and the least of
    /// them is of a later generation.
    pub open spec fn run_is_done(self) -> bool {
        self.queue.len() > 0 && self.least().generation != self.generation
    }

    /// The state after going over to the next run.
    pub open spec fn after_rotate(self) -> EngineState {
        EngineState { generation: self.generation + 1, in_run: 0, last_key: None, ..self }
    }

    /// The state after the least queued record has left.
    pub open spec fn after_emit(self) -> EngineState {
        EngineState {
            queue: self.queue.remove(least_index(self.queue)),
            in_run: self.in_run + 1,
            last_key: Some(self.least().rec.key@),
            ..self
        }
    }
}

/// What the driver has to do next.
#[derive(Debug, PartialEq, Eq)]
pub enum Step {
    /// Write this record to the run in hand, then offer the engine one more
    /// record of the input, if there is one.
    Emit(Rec),
    /// Close the run in hand and open the next one.
    Rotate,
    /// Close the run in hand: the queue is empty.
    Done,
}

/// The decisions of replacement selection: which record leaves next, when a
/// run ends, and which run an arriving record is for. The driver does the
/// reading and the writing.
pub struct SelectionEngine {
    heap: MinHeap,
    heap_cap: usize,
    seq: u64,
    current_gen: u64,
    run_idx: usize,
    records_in_current_run: usize,
    last_out_key: Option<[u8; 10]>,
    queue: Ghost<Seq<Entry>>,
}

impl View for SelectionEngine {
    type V = EngineState;

    closed spec fn view(&self) -> EngineState {
        EngineState {
            queue: self.queue@,
            generation: self.current_gen as nat,
            next_seq: self.seq as nat,
            in_run: self.records_in_current_run as nat,
            last_key: match self.last_out_key {
                Some(k) => Some(k@),
                None => None,
            },
        }
    }
}

impl SelectionEngine {
    /// How many records the queue holds at most.
    pub closed spec fn capacity(&self) -> nat {
        self.heap_cap as nat
    }

    pub closed spec fn wf(&self) -> bool {
        let q = self.queue@;
        &&& self.heap.wf()
        &&& self.heap@ == q.to_multiset()
        &&& q.len() <= self.heap_cap
        &&& distinct_seqs(q)
        &&& forall|i: int| 0 <= i < q.len() ==> (#[trigger] q[i]).seq < self.seq
        &&& forall|i: int|
            0 <= i < q.len() ==> self.current_gen <= (#[trigger] q[i]).generation
                <= self.current_gen + 1
        &&& self.records_in_current_run == 0 ==> forall|i: int|
            0 <= i < q.len() ==> (#[trigger] q[i]).generation == self.current_gen
        &&& (self.records_in_current_run == 0) == (self.last_out_key is None)
        &&& self.run_idx == self.current_gen
        &&& self.run_idx + self.records_in_current_run + q.len() <= self.seq
        &&& self.seq <= usize::MAX
    }

    /// What every well-formed engine has: no more queued records than its
    /// capacity, each of the generation being written or of the next one,
    /// and all of the first of these as long as nothing has left into the run
    /// being written.
    pub proof fn lemma_wf(&self)
        requires
            self.wf(),
        ensures
            self@.queue.len() <= self.capacity(),
            forall|i: int|
                0 <= i < self@.queue.len() ==> self@.generation <= (
                #[trigger] self@.queue[i]).generation <= self@.generation + 1,
            self@.in_run == 0 ==> !self@.run_is_done(),
            (self@.in_run == 0) == (self@.last_key is None),
            self@.generation + self@.in_run + self@.queue.len() <= self@.next_seq,
    {
        if self@.queue.len() > 0 {
            lemma_least_index(self@.queue);
        }
    }

    /// An engine with an empty queue for at most `heap_cap` records.
    pub fn new(heap_cap: usize) -> (engine: Self)
        ensures
            engine.wf(),
            engine@ == EngineState::start(),
            engine.capacity() == heap_cap,
    {
        let engine = SelectionEngine {
            heap: MinHeap::new(),
            heap_cap,
            seq: 0,
            current_gen: 0,
            run_idx: 0,
            records_in_current_run: 0,
            last_out_key: None,
            queue: Ghost(Seq::empty()),
        };
        proof {
            to_multiset_len(engine.queue@);
            lemma_multiset_empty_len(engine.queue@.to_multiset());
        }
        engine
    }

    /// How many records are queued.
    pub fn len(&self) -> (n: usize)
        requires
            self.wf(),
        ensures
            n == self@.queue.len(),
    {
        proof {
            to_multiset_len(self.queue@);
        }
        self.heap.len()
    }

    /// Whether nothing is queued.
    pub fn is_empty(&self) -> (b: bool)
        requires
            self.wf(),
        ensures
            b == (self@.queue.len() == 0),
    {
        proof {
            to_multiset_len(self.queue@);
        }
        self.heap.is_empty()
    }

    /// Whether the queue holds as many records as it may.
    pub fn is_full(&self) -> (b: bool)
        requires
            self.wf(),
        ensures
            b == (self@.queue.len() >= self.capacity()),
    {
        proof {
            to_multiset_len(self.queue@);
        }
        self.heap.len() >= self.heap_cap
    }

    /// The index of the run being written.
    pub fn run_index(&self) -> (idx: usize)
        requires
            self.wf(),
        ensures
            idx == self@.generation,
    {
        self.run_idx
    }

    /// How many records have arrived so far.
    pub fn arrived(&self) -> (n: u64)
        ensures
            n == self@.next_seq,
    {
        self.seq
    }

    /// Takes `rec` into the queue: for the run being written, or for the next
    /// one where its key is below the key that left last.
    pub fn offer(&mut self, rec: Rec)
        requires
            old(self).wf(),
            old(self)@.queue.len() < old(self).capacity(),
            old(self)@.next_seq < usize::MAX,
        ensures
            final(self).wf(),
            final(self)@ == old(self)@.after_offer(rec),
            final(self).capacity() == old(self).capacity(),
    {
        let target_gen = match self.last_out_key {
            Some(last) => {
                if key_less(&rec.key, &last) {
                    // freeze for the next run
                    self.current_gen + 1
                } else {
                    self.current_gen
                }
            },
            None => self.current_gen,
        };
        let ghost entry = Entry { rec, generation: target_gen as nat, seq: self.seq as nat };
        proof {
            to_multiset_build(self.queue@, entry);
            to_multiset_len(self.queue@);
        }
        self.heap.push(Item::new(rec, target_gen, self.seq));
        self.seq += 1;
        self.queue = Ghost(self.queue@.push(entry));
    }

    /// Decides what comes next, and goes over to the state after it.
    ///
    /// With an empty queue there is nothing left to do. Where the least queued
    /// record is of a later generation than the run being written, that run is
    /// done and the next one begins. Otherwise the least queued record leaves.
    pub fn next(&mut self) -> (step: Step)
        requires
            old(self).wf(),
        ensures
            final(self).wf(),
            final(self).capacity() == old(self).capacity(),
            match step {
                Step::Done => old(self)@.queue.len() == 0 && final(self)@ == old(self)@,
                Step::Rotate => {
                    &&& old(self)@.run_is_done()
                    &&& old(self)@.least().generation == old(self)@.generation + 1
                    &&& final(self)@ == old(self)@.after_rotate()
                    &&& !final(self)@.run_is_done()
                },
                Step::Emit(rec) => {
                    &&& old(self)@.queue.len() > 0
                    &&& !old(self)@.run_is_done()
                    &&& rec == old(self)@.least().rec
                    &&& final(self)@ == old(self)@.after_emit()
                },
            },
        decreases 0nat,
    {
        proof {
            to_multiset_len(self.queue@);
        }
        // If the least item is not of the current generation, the current run is done.
        let top_gen = match self.heap.peek() {
            Some(x) => {
                proof {
                    lemma_least_is_unique(self.queue@, x@);
                }
                x.g
            },
            None => {
                return Step::Done;
            },
        };
        let ghost li = least_index(self.queue@);
        let ghost x = self.queue@[li];
        if top_gen != self.current_gen {
            // Only rotate if something was written to the current run.
            if self.records_in_current_run > 0 {
                proof {
                    assert forall|i: int| 0 <= i < self.queue@.len() implies (
                    #[trigger] self.queue@[i]).generation == self.current_gen + 1 by {
                        assert(entry_le(x, self.queue@[i]));
                    }
                }
                self.run_idx += 1;
                self.current_gen += 1;
                self.last_out_key = None;
                self.records_in_current_run = 0;
                Step::Rotate
            } else {
                // Not reached: a run in hand with nothing written has its
                // records still queued.
                self.current_gen += 1;
                self.next()
            }
        } else {
            // Take the next record out.
            let item = self.heap.pop().unwrap();
            proof {
                lemma_least_is_unique(self.queue@, item@);
                to_multiset_remove(self.queue@, li);
            }
            self.records_in_current_run += 1;
            self.last_out_key = Some(item.rec.key);
            self.queue = Ghost(self.queue@.remove(li));
            Step::Emit(item.rec)
        }
    }
}

} // verus!
