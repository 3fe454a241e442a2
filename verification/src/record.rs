use std::cmp::Ordering;
use vstd::prelude::*;
use vstd::std_specs::cmp::PartialEqSpecImpl;
use vstd::std_specs::cmp::PartialOrdSpecImpl;

verus! {

/// A fixed-format record: a 10-byte key followed by a 90-byte payload.
#[derive(Clone, Debug, PartialEq, Eq)]
pub struct Rec {
    pub key: [u8; 10],
    pub payload: [u8; 90],
}

impl Rec {
    pub const SIZE: usize = 100;

    pub const KEY_SIZE: usize = 10;

    pub const PAYLOAD_SIZE: usize = 90;

    pub fn new(key: [u8; 10], payload: [u8; 90]) -> (rec: Self)
        ensures
            rec.key == key,
            rec.payload == payload,
    {
        Self { key, payload }
    }

    /// A second copy of this record, byte for byte.
    pub fn duplicate(&self) -> (rec: Self)
        ensures
            rec == *self,
    {
        Self { key: self.key, payload: self.payload }
    }
}

/// Strict lexicographic order on byte strings of one length: `a` is below `b`
/// when, at the first position where they differ, the byte of `a` is the smaller.
pub open spec fn key_lt(a: Seq<u8>, b: Seq<u8>) -> bool {
    exists|i: int|
        #![trigger a[i]]
        0 <= i < a.len() && i < b.len() && a[i] < b[i] && (forall|j: int|
            #![trigger a[j]]
            0 <= j < i ==> a[j] == b[j])
}

/// `a` is not above `b`.
pub open spec fn key_le(a: Seq<u8>, b: Seq<u8>) -> bool {
    !key_lt(b, a)
}

pub proof fn lemma_key_lt_asymmetric(a: Seq<u8>, b: Seq<u8>)
    ensures
        key_lt(a, b) ==> !key_lt(b, a),
        !key_lt(a, a),
{
    if key_lt(a, b) && key_lt(b, a) {
        let i = choose|i: int|
            #![trigger a[i]]
            0 <= i < a.len() && i < b.len() && a[i] < b[i] && (forall|j: int|
                #![trigger a[j]]
                0 <= j < i ==> a[j] == b[j]);
        let k = choose|k: int|
            #![trigger b[k]]
            0 <= k < b.len() && k < a.len() && b[k] < a[k] && (forall|j: int|
                #![trigger b[j]]
                0 <= j < k ==> b[j] == a[j]);
        if i < k {
            assert(b[i] == a[i]);
        } else if k < i {
            assert(a[k] == b[k]);
        }
    }
}

pub proof fn lemma_key_lt_transitive(a: Seq<u8>, b: Seq<u8>, c: Seq<u8>)
    requires
        key_lt(a, b),
        key_lt(b, c),
    ensures
        key_lt(a, c),
{
    let i = choose|i: int|
        #![trigger a[i]]
        0 <= i < a.len() && i < b.len() && a[i] < b[i] && (forall|j: int|
            #![trigger a[j]]
            0 <= j < i ==> a[j] == b[j]);
    let k = choose|k: int|
        #![trigger b[k]]
        0 <= k < b.len() && k < c.len() && b[k] < c[k] && (forall|j: int|
            #![trigger b[j]]
            0 <= j < k ==> b[j] == c[j]);
    let m = if i <= k {
        i
    } else {
        k
    };
    assert(a[m] < c[m]) by {
        if i < k {
            assert(b[i] == c[i]);
        } else if k < i {
            assert(a[k] == b[k]);
        }
    }
    assert forall|j: int| #![trigger a[j]] 0 <= j < m implies a[j] == c[j] by {
        assert(a[j] == b[j]);
        assert(b[j] == c[j]);
    }
}

/// From position `from` on, two strings of one length that agree before it
/// either agree to the end or are ordered one way or the other.
proof fn lemma_key_compare_from(a: Seq<u8>, b: Seq<u8>, from: int)
    requires
        a.len() == b.len(),
        0 <= from <= a.len(),
        forall|j: int| #![trigger a[j]] 0 <= j < from ==> a[j] == b[j],
    ensures
        key_lt(a, b) || key_lt(b, a) || a == b,
    decreases a.len() - from,
{
    if from == a.len() {
        assert(a =~= b);
    } else if a[from] < b[from] {
        assert(key_lt(a, b));
    } else if b[from] < a[from] {
        assert forall|j: int| #![trigger b[j]] 0 <= j < from implies b[j] == a[j] by {
            assert(a[j] == b[j]);
        }
        assert(key_lt(b, a));
    } else {
        lemma_key_compare_from(a, b, from + 1);
    }
}

/// Two keys of one length are equal or ordered.
pub proof fn lemma_key_order_total(a: Seq<u8>, b: Seq<u8>)
    requires
        a.len() == b.len(),
    ensures
        key_lt(a, b) || key_lt(b, a) || a == b,
{
    lemma_key_compare_from(a, b, 0);
}

pub proof fn lemma_key_le_transitive(a: Seq<u8>, b: Seq<u8>, c: Seq<u8>)
    requires
        a.len() == b.len(),
        b.len() == c.len(),
        key_le(a, b),
        key_le(b, c),
    ensures
        key_le(a, c),
{
    lemma_key_order_total(a, b);
    lemma_key_order_total(b, c);
    if key_lt(c, a) {
        if a == b {
        } else if b == c {
        } else {
            lemma_key_lt_transitive(a, b, c);
            lemma_key_lt_asymmetric(a, c);
        }
    }
}

/// Compares two keys as unsigned byte strings.
pub fn key_order(a: &[u8; 10], b: &[u8; 10]) -> (r: Ordering)
    ensures
        match r {
            Ordering::Less => key_lt(a@, b@),
            Ordering::Equal => a@ == b@,
            Ordering::Greater => key_lt(b@, a@),
        },
{
    let mut i: usize = 0;
    while i < 10
        invariant
            i <= 10,
            forall|j: int| #![trigger a@[j]] 0 <= j < i ==> a@[j] == b@[j],
        decreases 10 - i,
    {
        if a[i] < b[i] {
            return Ordering::Less;
        }
        if a[i] > b[i] {
            assert forall|j: int| #![trigger b@[j]] 0 <= j < i implies b@[j] == a@[j] by {
                assert(a@[j] == b@[j]);
            }
            return Ordering::Greater;
        }
        i += 1;
    }
    assert(a@ =~= b@);
    Ordering::Equal
}

/// Whether key `a` is strictly below key `b`.
pub fn key_less(a: &[u8; 10], b: &[u8; 10]) -> (r: bool)
    ensures
        r == key_lt(a@, b@),
{
    proof {
        lemma_key_lt_asymmetric(a@, b@);
        lemma_key_lt_asymmetric(b@, a@);
    }
    match key_order(a, b) {
        Ordering::Less => true,
        _ => false,
    }
}

/// A queued record, tagged with the generation (the run it is reserved for) and
/// with the sequence number it was given on arrival.
#[derive(Clone, Debug)]
pub struct Item {
    pub rec: Rec,
    pub g: u64,
    pub seq: u64,
}

/// A queued record as the contracts speak of it: the record, its generation
/// and its sequence number, the two as natural numbers.
pub struct Entry {
    pub rec: Rec,
    pub generation: nat,
    pub seq: nat,
}

impl View for Item {
    type V = Entry;

    open spec fn view(&self) -> Entry {
        Entry { rec: self.rec, generation: self.g as nat, seq: self.seq as nat }
    }
}

/// The strict order of queued records: by generation, then by key, then by
/// sequence number.
pub open spec fn entry_lt(a: Entry, b: Entry) -> bool {
    a.generation < b.generation || (a.generation == b.generation && (key_lt(
        a.rec.key@,
        b.rec.key@,
    ) || (a.rec.key@ == b.rec.key@ && a.seq < b.seq)))
}

/// `a` is not above `b` in the order of queued records.
pub open spec fn entry_le(a: Entry, b: Entry) -> bool {
    !entry_lt(b, a)
}

/// Two queued records stand at one place of the order: the payload is not
/// looked at.
pub open spec fn same_rank(a: Entry, b: Entry) -> bool {
    a.generation == b.generation && a.seq == b.seq && a.rec.key@ == b.rec.key@
}

pub proof fn lemma_entry_order_total(a: Entry, b: Entry)
    ensures
        entry_lt(a, b) || entry_lt(b, a) || same_rank(a, b),
        entry_lt(a, b) ==> !entry_lt(b, a),
        same_rank(a, b) ==> !entry_lt(a, b) && !entry_lt(b, a),
        entry_le(a, b) || entry_le(b, a),
        entry_le(a, a),
{
    lemma_key_order_total(a.rec.key@, b.rec.key@);
    lemma_key_lt_asymmetric(a.rec.key@, b.rec.key@);
    lemma_key_lt_asymmetric(b.rec.key@, a.rec.key@);
    lemma_key_lt_asymmetric(a.rec.key@, a.rec.key@);
}

pub proof fn lemma_entry_le_transitive(a: Entry, b: Entry, c: Entry)
    requires
        entry_le(a, b),
        entry_le(b, c),
    ensures
        entry_le(a, c),
{
    lemma_entry_order_total(a, b);
    lemma_entry_order_total(b, c);
    lemma_entry_order_total(a, c);
    lemma_key_order_total(a.rec.key@, b.rec.key@);
    lemma_key_order_total(b.rec.key@, c.rec.key@);
    lemma_key_order_total(a.rec.key@, c.rec.key@);
    if key_lt(c.rec.key@, a.rec.key@) && a.generation == b.generation && b.generation
        == c.generation {
        if key_lt(a.rec.key@, b.rec.key@) {
            lemma_key_lt_transitive(c.rec.key@, a.rec.key@, b.rec.key@);
        } else if key_lt(b.rec.key@, c.rec.key@) {
            lemma_key_lt_transitive(b.rec.key@, c.rec.key@, a.rec.key@);
        }
    }
}

impl Item {
    pub fn new(rec: Rec, g: u64, seq: u64) -> (item: Self)
        ensures
            item.rec == rec,
            item.g == g,
            item.seq == seq,
    {
        Self { rec, g, seq }
    }

    /// The place of `self` relative to `other` in the order of queued records.
    pub fn order(&self, other: &Self) -> (r: Ordering)
        ensures
            match r {
                Ordering::Less => entry_lt(self@, other@),
                Ordering::Equal => same_rank(self@, other@),
                Ordering::Greater => entry_lt(other@, self@),
            },
    {
        if self.g < other.g {
            Ordering::Less
        } else if self.g > other.g {
            Ordering::Greater
        } else {
            match key_order(&self.rec.key, &other.rec.key) {
                Ordering::Less => Ordering::Less,
                Ordering::Greater => Ordering::Greater,
                Ordering::Equal => {
                    if self.seq < other.seq {
                        Ordering::Less
                    } else if self.seq > other.seq {
                        Ordering::Greater
                    } else {
                        Ordering::Equal
                    }
                },
            }
        }
    }

    /// Whether `self` comes strictly before `other` in the order of queued
    /// records.
    pub fn precedes(&self, other: &Self) -> (r: bool)
        ensures
            r == entry_lt(self@, other@),
    {
        proof {
            lemma_entry_order_total(self@, other@);
        }
        match self.order(other) {
            Ordering::Less => true,
            _ => false,
        }
    }
}

impl PartialEq for Item {
    fn eq(&self, other: &Self) -> (r: bool) {
        proof {
            lemma_entry_order_total(self@, other@);
        }
        match self.order(other) {
            Ordering::Equal => true,
            _ => false,
        }
    }
}

impl PartialEqSpecImpl for Item {
    open spec fn obeys_eq_spec() -> bool {
        true
    }

    open spec fn eq_spec(&self, other: &Item) -> bool {
        same_rank(self@, other@)
    }
}

impl Eq for Item {

}

impl PartialOrd for Item {
    fn partial_cmp(&self, other: &Self) -> (r: Option<Ordering>) {
        proof {
            lemma_entry_order_total(self@, other@);
        }
        Some(self.order(other))
    }
}

impl PartialOrdSpecImpl for Item {
    open spec fn obeys_partial_cmp_spec() -> bool {
        true
    }

    open spec fn partial_cmp_spec(&self, other: &Item) -> Option<Ordering> {
        if entry_lt(self@, other@) {
            Some(Ordering::Less)
        } else if entry_lt(other@, self@) {
            Some(Ordering::Greater)
        } else {
            Some(Ordering::Equal)
        }
    }
}

} // verus!
