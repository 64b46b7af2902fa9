//! The merged state: for each peer, channel and slot, the latest event seen.
//! A later event of the same peer on the same slot replaces an earlier one;
//! peers never overwrite each other's slots.

use vstd::prelude::*;
use crate::event::{is_newer, key_of, lemma_newer_asymmetric, newer, MidiEvent, MiditipEvent, SlotKey};

verus! {

/// Whether `e` would be stored by a state whose contents are `m`: its kind
/// is tracked, and its slot is empty or holds an event that `e` comes after.
pub open spec fn accepts(m: Map<SlotKey, MiditipEvent>, e: MiditipEvent) -> bool {
    match key_of(e) {
        Some(k) => !m.contains_key(k) || newer(e.msg_id, m[k].msg_id),
        None => false,
    }
}

/// The contents after offering `e` to a state whose contents are `m`.
pub open spec fn merged(m: Map<SlotKey, MiditipEvent>, e: MiditipEvent) -> Map<SlotKey, MiditipEvent> {
    if accepts(m, e) {
        m.insert(key_of(e).unwrap(), e)
    } else {
        m
    }
}

/// The contents after offering the events of `s` one after another.
pub open spec fn merge_all(m: Map<SlotKey, MiditipEvent>, s: Seq<MiditipEvent>) -> Map<SlotKey, MiditipEvent>
    decreases s.len(),
{
    if s.len() == 0 {
        m
    } else {
        merged(merge_all(m, s.drop_last()), s.last())
    }
}

/// The events of `s`, in order, that were stored when offered one after
/// another to a state whose contents start as `m`.
pub open spec fn accepted_events(m: Map<SlotKey, MiditipEvent>, s: Seq<MiditipEvent>) -> Seq<MiditipEvent>
    decreases s.len(),
{
    if s.len() == 0 {
        Seq::empty()
    } else {
        let before = accepted_events(m, s.drop_last());
        if accepts(merge_all(m, s.drop_last()), s.last()) {
            before.push(s.last())
        } else {
            before
        }
    }
}

/// The MIDI messages carried by a sequence of events.
pub open spec fn midi_of(s: Seq<MiditipEvent>) -> Seq<MidiEvent> {
    s.map_values(|e: MiditipEvent| e.midi())
}

/// Every event of `s` has a tracked kind, and no two share a key.
pub open spec fn keyed(s: Seq<MiditipEvent>) -> bool {
    &&& forall|i: int| 0 <= i < s.len() ==> (#[trigger] key_of(s[i])) is Some
    &&& forall|i: int, j: int|
        0 <= i < s.len() && 0 <= j < s.len() && i != j ==> key_of(s[i]) != key_of(s[j])
}

/// The sequence `s` lists exactly the contents `m`, one event per key.
pub open spec fn represents(s: Seq<MiditipEvent>, m: Map<SlotKey, MiditipEvent>) -> bool {
    &&& keyed(s)
    &&& forall|i: int|
        0 <= i < s.len() ==> m.contains_key(#[trigger] key_of(s[i]).unwrap())
            && m[key_of(s[i]).unwrap()] == s[i]
    &&& forall|k: SlotKey|
        m.contains_key(k) ==> exists|i: int| 0 <= i < s.len() && #[trigger] key_of(s[i]) == Some(k)
}

/// Two events on one slot, the second later than the first, leave a fresh
/// state holding the second whichever order they arrive in.
pub proof fn lemma_last_writer_wins(e1: MiditipEvent, e2: MiditipEvent)
    requires
        key_of(e1) == key_of(e2),
        newer(e2.msg_id, e1.msg_id),
    ensures
        merged(merged(Map::empty(), e1), e2) == merged(Map::empty(), e2),
        merged(merged(Map::empty(), e2), e1) == merged(Map::empty(), e2),
{
    lemma_newer_asymmetric(e1.msg_id, e2.msg_id);
    if key_of(e1) is Some {
        assert(merged(merged(Map::empty(), e1), e2) =~= merged(Map::empty(), e2));
    }
}

/// Offering an event a second time changes nothing and is refused.
pub proof fn lemma_apply_idempotent(m: Map<SlotKey, MiditipEvent>, e: MiditipEvent)
    ensures
        !accepts(merged(m, e), e),
        merged(merged(m, e), e) == merged(m, e),
{
}

/// Some of the first `n` events of `s` has key `k`.
pub open spec fn seen(s: Seq<MiditipEvent>, n: int, k: SlotKey) -> bool {
    exists|j: int| 0 <= j < n && #[trigger] key_of(s[j]) == Some(k)
}

/// `a` and `b` hold the same on slot `k`.
pub open spec fn unchanged_at(a: Map<SlotKey, MiditipEvent>, b: Map<SlotKey, MiditipEvent>, k: SlotKey) -> bool {
    &&& a.contains_key(k) == b.contains_key(k)
    &&& b.contains_key(k) ==> a[k] == b[k]
}

/// The slot of `e` does not hold `e` in `m`.
pub open spec fn differs(m: Map<SlotKey, MiditipEvent>, e: MiditipEvent) -> bool {
    match key_of(e) {
        Some(k) => !m.contains_key(k) || m[k] != e,
        None => false,
    }
}

pub open spec fn changed_from(m: Map<SlotKey, MiditipEvent>) -> spec_fn(MiditipEvent) -> bool {
    |e: MiditipEvent| differs(m, e)
}

/// The events of `s`, in order, that `m` does not hold as they are.
pub open spec fn differing(m: Map<SlotKey, MiditipEvent>, s: Seq<MiditipEvent>) -> Seq<MiditipEvent> {
    s.filter(changed_from(m))
}

/// A diff returns nothing exactly when this state already holds every record
/// of the reference as it is.
pub proof fn lemma_diff_empty_iff_agrees(m: Map<SlotKey, MiditipEvent>, reference: Seq<MiditipEvent>)
    requires
        keyed(reference),
    ensures
        differing(m, reference).len() == 0 <==> forall|i: int| 0 <= i < reference.len()
            ==> m.contains_key(#[trigger] key_of(reference[i]).unwrap()) && m[key_of(reference[i]).unwrap()] == reference[i],
{
    let d = differing(m, reference);
    if d.len() == 0 {
        assert forall|i: int| 0 <= i < reference.len() implies m.contains_key(#[trigger] key_of(reference[i]).unwrap())
            && m[key_of(reference[i]).unwrap()] == reference[i] by {
            assert(key_of(reference[i]) is Some);
            if differs(m, reference[i]) {
                reference.lemma_filter_contains(changed_from(m), i);
            }
        }
    } else {
        reference.lemma_filter_pred(changed_from(m), 0);
        reference.lemma_filter_contains_rev(changed_from(m), d[0]);
        let i = choose|i: int| 0 <= i < reference.len() && reference[i] == d[0];
        assert(key_of(reference[i]) is Some);
    }
}

/// Diffing against the same reference twice in a row: the second call emits
/// nothing and leaves the state as the first call left it.
pub proof fn lemma_diff_twice(m: Map<SlotKey, MiditipEvent>, reference: Seq<MiditipEvent>, r: Map<SlotKey, MiditipEvent>)
    requires
        represents(reference, r),
    ensures
        m.union_prefer_right(r).union_prefer_right(r) == m.union_prefer_right(r),
        midi_of(differing(m.union_prefer_right(r), reference)) == Seq::<MidiEvent>::empty(),
{
    let m1 = m.union_prefer_right(r);
    assert(m1.union_prefer_right(r) =~= m1);
    lemma_diff_empty_iff_agrees(m1, reference);
    assert forall|i: int| 0 <= i < reference.len() implies m1.contains_key(#[trigger] key_of(reference[i]).unwrap())
        && m1[key_of(reference[i]).unwrap()] == reference[i] by {
        assert(r.contains_key(key_of(reference[i]).unwrap()));
    }
    assert(midi_of(differing(m1, reference)) =~= Seq::<MidiEvent>::empty());
}

/// The merged state of a session: the latest event of each peer on each
/// slot of each channel.
pub struct MiditipState {
    records: Vec<MiditipEvent>,
    contents: Ghost<Map<SlotKey, MiditipEvent>>,
}

impl View for MiditipState {
    type V = Map<SlotKey, MiditipEvent>;

    closed spec fn view(&self) -> Map<SlotKey, MiditipEvent> {
        self.contents@
    }
}

impl MiditipState {
    /// The stored events, in the order in which their slots were first set.
    pub closed spec fn records(&self) -> Seq<MiditipEvent> {
        self.records@
    }

    pub open spec fn wf(&self) -> bool {
        represents(self.records(), self@)
    }

    /// An empty state.
    pub fn new() -> (r: MiditipState)
        ensures
            r.wf(),
            r@ == Map::<SlotKey, MiditipEvent>::empty(),
            r.records() == Seq::<MiditipEvent>::empty(),
    {
        MiditipState { records: Vec::new(), contents: Ghost(Map::empty()) }
    }

    /// The number of stored events.
    pub fn len(&self) -> (r: usize)
        ensures
            r == self.records().len(),
    {
        self.records.len()
    }

    /// The position of the stored event with key `k`, if there is one.
    fn find(&self, k: SlotKey) -> (r: Option<usize>)
        requires
            self.wf(),
        ensures
            match r {
                Some(i) => i < self.records().len() && key_of(self.records()[i as int]) == Some(k),
                None => !self@.contains_key(k),
            },
    {
        let mut i: usize = 0;
        while i < self.records.len()
            invariant
                self.wf(),
                i <= self.records.len(),
                forall|j: int| 0 <= j < i ==> key_of(self.records@[j]) != Some(k),
            decreases self.records.len() - i,
        {
            if self.records[i].key() == Some(k) {
                return Some(i);
            }
            i += 1;
        }
        None
    }

    /// The event stored under key `k`, if any.
    pub fn lookup(&self, k: SlotKey) -> (r: Option<MiditipEvent>)
        requires
            self.wf(),
        ensures
            r == (if self@.contains_key(k) { Some(self@[k]) } else { None::<MiditipEvent> }),
    {
        match self.find(k) {
            Some(i) => {
                assert(self@.contains_key(key_of(self.records@[i as int]).unwrap()));
                Some(self.records[i])
            },
            None => None,
        }
    }

    /// Stores an event whose slot is empty.
    fn push_fresh(&mut self, e: MiditipEvent, k: SlotKey)
        requires
            old(self).wf(),
            key_of(e) == Some(k),
            !old(self)@.contains_key(k),
        ensures
            final(self).wf(),
            final(self).records() == old(self).records().push(e),
            final(self)@ == old(self)@.insert(k, e),
    {
        self.records.push(e);
        self.contents = Ghost(self.contents@.insert(k, e));
        let n = self.records.len() - 1;
        assert(self.records@ == old(self).records@.push(e));
        assert forall|k2: SlotKey| self@.contains_key(k2) implies exists|j: int|
            0 <= j < self.records@.len() && #[trigger] key_of(self.records@[j]) == Some(k2) by {
            if k2 != k {
                let j = choose|j: int|
                    0 <= j < old(self).records@.len() && #[trigger] key_of(old(self).records@[j]) == Some(k2);
                assert(key_of(self.records@[j]) == Some(k2));
            } else {
                assert(key_of(self.records@[n as int]) == Some(k2));
            }
        }
        assert forall|a: int, b: int|
            0 <= a < self.records@.len() && 0 <= b < self.records@.len() && a != b implies
            key_of(self.records@[a]) != key_of(self.records@[b]) by {
            if a == n {
                assert(old(self)@.contains_key(key_of(self.records@[b]).unwrap()));
            } else if b == n {
                assert(old(self)@.contains_key(key_of(self.records@[a]).unwrap()));
            }
        }
    }

    /// Stores an event in place of the record at `i`, which has its key.
    fn replace_at(&mut self, i: usize, e: MiditipEvent, k: SlotKey)
        requires
            old(self).wf(),
            i < old(self).records().len(),
            key_of(old(self).records()[i as int]) == Some(k),
            key_of(e) == Some(k),
        ensures
            final(self).wf(),
            final(self)@ == old(self)@.insert(k, e),
    {
        self.records.set(i, e);
        self.contents = Ghost(self.contents@.insert(k, e));
        assert(self.records@ == old(self).records@.update(i as int, e));
        assert forall|k2: SlotKey| self@.contains_key(k2) implies exists|j: int|
            0 <= j < self.records@.len() && #[trigger] key_of(self.records@[j]) == Some(k2) by {
            if k2 != k {
                let j = choose|j: int|
                    0 <= j < old(self).records@.len() && #[trigger] key_of(old(self).records@[j]) == Some(k2);
                assert(key_of(self.records@[j]) == Some(k2));
            } else {
                assert(key_of(self.records@[i as int]) == Some(k2));
            }
        }
    }

    /// Merges one event. Returns whether it was stored: its kind is tracked
    /// and it is later than what its slot held, or the slot was empty. A
    /// stale or repeated event changes nothing.
    pub fn apply(&mut self, e: MiditipEvent) -> (r: bool)
        requires
            old(self).wf(),
        ensures
            final(self).wf(),
            r == accepts(old(self)@, e),
            final(self)@ == merged(old(self)@, e),
    {
        let k = match e.key() {
            Some(k) => k,
            None => return false,
        };
        match self.find(k) {
            Some(i) => {
                let cur = self.records[i];
                if is_newer(e.msg_id, cur.msg_id) {
                    self.replace_at(i, e, k);
                    true
                } else {
                    false
                }
            },
            None => {
                self.push_fresh(e, k);
                true
            },
        }
    }

    /// Merges a batch of events in order. Returns those that were stored,
    /// in order; the others were stale, repeated or of an untracked kind.
    pub fn merge_events(&mut self, events: &Vec<MiditipEvent>) -> (r: Vec<MiditipEvent>)
        requires
            old(self).wf(),
        ensures
            final(self).wf(),
            final(self)@ == merge_all(old(self)@, events@),
            r@ == accepted_events(old(self)@, events@),
    {
        let mut out: Vec<MiditipEvent> = Vec::new();
        let mut i: usize = 0;
        while i < events.len()
            invariant
                self.wf(),
                i <= events.len(),
                self@ == merge_all(old(self)@, events@.take(i as int)),
                out@ == accepted_events(old(self)@, events@.take(i as int)),
            decreases events.len() - i,
        {
            let e = events[i];
            assert(events@.take(i + 1).drop_last() =~= events@.take(i as int));
            if self.apply(e) {
                out.push(e);
            }
            i += 1;
        }
        assert(events@.take(i as int) =~= events@);
        out
    }

    /// The messages that bring an output which sounds this state into
    /// agreement with `reference`: in the order of `reference`'s records,
    /// the message of each record that this state does not hold as it is.
    /// Afterwards this state holds what `reference` holds on every slot
    /// `reference` holds, and is unchanged elsewhere; so an immediate second
    /// call returns nothing.
    pub fn diff(&mut self, reference: &MiditipState) -> (r: Vec<MidiEvent>)
        requires
            old(self).wf(),
            reference.wf(),
        ensures
            final(self).wf(),
            final(self)@ == old(self)@.union_prefer_right(reference@),
            r@ == midi_of(differing(old(self)@, reference.records())),
    {
        let ghost pred = changed_from(old(self)@);
        let ghost rr = reference.records@;
        let mut out: Vec<MidiEvent> = Vec::new();
        let mut i: usize = 0;
        while i < reference.records.len()
            invariant
                self.wf(),
                reference.wf(),
                rr == reference.records(),
                i <= rr.len(),
                pred == changed_from(old(self)@),
                out@ == midi_of(rr.take(i as int).filter(pred)),
                forall|j: int| 0 <= j < i ==> self@.contains_key(#[trigger] key_of(rr[j]).unwrap())
                    && self@[key_of(rr[j]).unwrap()] == rr[j],
                forall|k: SlotKey| !seen(rr, i as int, k) ==> #[trigger] unchanged_at(self@, old(self)@, k),
            decreases rr.len() - i,
        {
            let e = reference.records[i];
            assert(key_of(rr[i as int]) is Some);
            let k = match e.key() {
                Some(k) => k,
                None => {
                    assert(false);
                    return out;
                },
            };
            let ghost before = self@;
            assert(!seen(rr, i as int, k)) by {
                if seen(rr, i as int, k) {
                    let j = choose|j: int| 0 <= j < i && #[trigger] key_of(rr[j]) == Some(k);
                    assert(key_of(rr[j]) != key_of(rr[i as int]));
                }
            }
            assert(unchanged_at(before, old(self)@, k));
            let same = match self.find(k) {
                Some(j) => {
                    assert(self@.contains_key(key_of(self.records()[j as int]).unwrap()));
                    self.records[j] == e
                },
                None => false,
            };
            assert(same == !differs(old(self)@, e));
            assert(rr.take(i + 1) == rr.take(i as int).push(e));
            proof {
                rr.take(i as int).lemma_filter_push(e, pred);
            }
            if !same {
                match self.find(k) {
                    Some(j) => self.replace_at(j, e, k),
                    None => self.push_fresh(e, k),
                }
                let ghost prev = out@;
                out.push(e.midi_event());
                assert(midi_of(rr.take(i as int).filter(pred).push(e)) =~= prev.push(e.midi()));
            } else {
                assert(self@.contains_key(k) && self@[k] == e);
            }
            assert forall|j: int| 0 <= j < i + 1 implies self@.contains_key(#[trigger] key_of(rr[j]).unwrap())
                && self@[key_of(rr[j]).unwrap()] == rr[j] by {
                if j < i {
                    assert(key_of(rr[j]) != key_of(rr[i as int]));
                    assert(key_of(rr[j]) is Some);
                }
            }
            assert forall|k2: SlotKey| !seen(rr, i + 1, k2) implies #[trigger] unchanged_at(self@, old(self)@, k2) by {
                if seen(rr, i as int, k2) {
                    let j = choose|j: int| 0 <= j < i && #[trigger] key_of(rr[j]) == Some(k2);
                    assert(0 <= j < i + 1 && key_of(rr[j]) == Some(k2));
                }
                assert(key_of(rr[i as int]) == Some(k));
                if k2 == k {
                    assert(seen(rr, i + 1, k2));
                }
                assert(unchanged_at(before, old(self)@, k2));
            }
            i += 1;
        }
        assert(rr.take(i as int) =~= rr);
        assert forall|k: SlotKey| #[trigger] self@.contains_key(k) == old(self)@.union_prefer_right(reference@).contains_key(k)
            && (self@.contains_key(k) ==> self@[k] == old(self)@.union_prefer_right(reference@)[k]) by {
            if reference@.contains_key(k) {
                let j = choose|j: int| 0 <= j < rr.len() && #[trigger] key_of(rr[j]) == Some(k);
                assert(key_of(rr[j]).unwrap() == k);
                assert(reference@[k] == rr[j]);
            } else {
                if seen(rr, i as int, k) {
                    let j = choose|j: int| 0 <= j < i && #[trigger] key_of(rr[j]) == Some(k);
                    assert(reference@.contains_key(key_of(rr[j]).unwrap()));
                }
                assert(unchanged_at(self@, old(self)@, k));
            }
        }
        assert(self@ =~= old(self)@.union_prefer_right(reference@));
        out
    }

    /// A copy of this state, records in the same order.
    pub fn snapshot(&self) -> (r: MiditipState)
        requires
            self.wf(),
        ensures
            r.wf(),
            r@ == self@,
            r.records() == self.records(),
    {
        MiditipState { records: self.events(), contents: Ghost(self.contents@) }
    }

    /// The stored events, in the order of `records`.
    pub fn events(&self) -> (r: Vec<MiditipEvent>)
        ensures
            r@ == self.records(),
    {
        let mut out: Vec<MiditipEvent> = Vec::new();
        let mut i: usize = 0;
        while i < self.records.len()
            invariant
                i <= self.records.len(),
                out@ == self.records@.take(i as int),
            decreases self.records.len() - i,
        {
            out.push(self.records[i]);
            assert(self.records@.take(i + 1) =~= self.records@.take(i as int).push(self.records@[i as int]));
            i += 1;
        }
        assert(self.records@.take(i as int) =~= self.records@);
        out
    }

    /// The state whose records are `events`, in that order; `None` where an
    /// event has an untracked kind or two events share a key.
    pub fn from_events(events: &Vec<MiditipEvent>) -> (r: Option<MiditipState>)
        ensures
            r is Some <==> keyed(events@),
            r matches Some(s) ==> s.wf() && s.records() == events@,
    {
        let mut s = MiditipState::new();
        let mut i: usize = 0;
        while i < events.len()
            invariant
                s.wf(),
                i <= events.len(),
                s.records() == events@.take(i as int),
            decreases events.len() - i,
        {
            let e = events[i];
            let k = match e.key() {
                Some(k) => k,
                None => {
                    return None;
                },
            };
            match s.find(k) {
                Some(j) => {
                    assert(key_of(events@[j as int]) == key_of(events@[i as int]));
                    return None;
                },
                None => {
                    proof {
                        if exists|j: int| 0 <= j < i && #[trigger] key_of(events@[j]) == Some(k) {
                            let j = choose|j: int| 0 <= j < i && #[trigger] key_of(events@[j]) == Some(k);
                            assert(s.records()[j] == events@[j]);
                            assert(s@.contains_key(key_of(s.records()[j]).unwrap()));
                        }
                    }
                    s.push_fresh(e, k);
                    assert(s.records() =~= events@.take(i + 1));
                },
            }
            i += 1;
        }
        assert(events@.take(i as int) =~= events@);
        Some(s)
    }
}

} // verus!
