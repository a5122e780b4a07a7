//! The queue of pending events: a binary heap that always yields the event
//! that is to be executed next.

use vstd::prelude::*;
use vstd::multiset::*;
use vstd::seq_lib::*;
use crate::event::{
    lemma_precedes_antisymmetric, lemma_precedes_total, lemma_precedes_transitive, Event,
};

verus! {

/// `e` is pending in `m` and no pending event is executed before it.
pub open spec fn is_earliest(m: Multiset<Event>, e: Event) -> bool {
    m.contains(e) && forall|o: Event| m.contains(o) ==> e.precedes(o)
}

/// The pending event that is executed first.  Meaningful while `m` is not
/// empty.
pub open spec fn earliest(m: Multiset<Event>) -> Event {
    choose|e: Event| is_earliest(m, e)
}

/// The event that is executed next when the clock shows `now`: the earliest
/// pending event if it is due, and nothing otherwise.
pub open spec fn next_due(m: Multiset<Event>, now: nat) -> Option<Event> {
    if m.len() > 0 && earliest(m).due(now) {
        Some(earliest(m))
    } else {
        None
    }
}

/// No two different events are both the earliest of `m`.
pub proof fn lemma_earliest_unique(m: Multiset<Event>, a: Event, b: Event)
    requires
        is_earliest(m, a),
        is_earliest(m, b),
    ensures
        a == b,
{
    lemma_precedes_antisymmetric(a, b);
}

/// Every queue that holds an event has an earliest one, and that one has the
/// smallest timestamp.
pub proof fn lemma_earliest_exists(m: Multiset<Event>)
    requires
        m.len() > 0,
    ensures
        is_earliest(m, earliest(m)),
        forall|o: Event| m.contains(o) ==> earliest(m).timestamp <= o.timestamp,
    decreases m.len(),
{
    broadcast use group_multiset_axioms;

    let x = m.choose();
    let rest = m.remove(x);
    let w = if rest.len() == 0 {
        lemma_multiset_empty_len(rest);
        x
    } else {
        lemma_earliest_exists(rest);
        let y = earliest(rest);
        if x.precedes(y) {
            x
        } else {
            y
        }
    };
    assert forall|o: Event| m.contains(o) implies w.precedes(o) by {
        if o != x {
            assert(rest.count(o) == m.count(o));
            assert(rest.contains(o));
            if x.precedes(earliest(rest)) {
                lemma_precedes_transitive(x, earliest(rest), o);
            }
        } else if rest.len() != 0 {
            lemma_precedes_total(x, earliest(rest));
        }
    }
    assert(m.contains(w));
    assert(is_earliest(m, w));
}

/// In a queue without due events nothing is due: when the earliest event lies
/// in the future, so does every other.
pub proof fn lemma_none_due(m: Multiset<Event>, now: nat)
    requires
        next_due(m, now) is None,
    ensures
        forall|o: Event| m.contains(o) ==> !o.due(now),
{
    if m.len() > 0 {
        lemma_earliest_exists(m);
    } else {
        lemma_multiset_empty_len(m);
    }
}

/// The index of the node above node `i` in the heap.
pub open spec fn parent(i: int) -> int {
    (i - 1) / 2
}

/// Node `i` is executed no earlier than the node above it.
spec fn ordered_at(s: Seq<Event>, i: int) -> bool {
    s[parent(i)].precedes(s[i])
}

/// Node `i` is executed no earlier than the node two levels above it.
spec fn spans(s: Seq<Event>, i: int) -> bool {
    s[parent(parent(i))].precedes(s[i])
}

/// Every node is executed no later than the nodes below it.
spec fn heap_ordered(s: Seq<Event>) -> bool {
    forall|i: int| 0 < i < s.len() ==> #[trigger] ordered_at(s, i)
}

/// The heap order holds everywhere but between `hole` and the node above it,
/// and the nodes below `hole` are in order with the node above it.
spec fn ordered_but_above(s: Seq<Event>, hole: int) -> bool {
    &&& forall|i: int| 0 < i < s.len() && i != hole ==> #[trigger] ordered_at(s, i)
    &&& forall|i: int| 0 < i < s.len() && hole > 0 && parent(i) == hole ==> #[trigger] spans(s, i)
}

/// The heap order holds everywhere but between `hole` and the nodes below it,
/// and those are in order with the node above `hole`.
spec fn ordered_but_below(s: Seq<Event>, hole: int) -> bool {
    &&& forall|i: int| 0 < i < s.len() && parent(i) != hole ==> #[trigger] ordered_at(s, i)
    &&& forall|i: int| 0 < i < s.len() && hole > 0 && parent(i) == hole ==> #[trigger] spans(s, i)
}

/// In a heap the root is executed no later than any node.
proof fn lemma_root_precedes(s: Seq<Event>, i: int)
    requires
        heap_ordered(s),
        0 <= i < s.len(),
    ensures
        s[0].precedes(s[i]),
    decreases i,
{
    if i > 0 {
        assert(ordered_at(s, i));
        lemma_root_precedes(s, parent(i));
        lemma_precedes_transitive(s[0], s[parent(i)], s[i]);
    }
}

/// The root of a heap is the earliest of its events.
proof fn lemma_root_is_earliest(s: Seq<Event>)
    requires
        heap_ordered(s),
        s.len() > 0,
    ensures
        is_earliest(s.to_multiset(), s[0]),
        earliest(s.to_multiset()) == s[0],
{
    broadcast use to_multiset_contains;

    let m = s.to_multiset();
    assert(s.contains(s[0]));
    assert forall|o: Event| m.contains(o) implies s[0].precedes(o) by {
        assert(s.contains(o));
        let k = choose|k: int| 0 <= k < s.len() && s[k] == o;
        lemma_root_precedes(s, k);
    }
    s.to_multiset_ensures();
    lemma_earliest_exists(m);
    lemma_earliest_unique(m, s[0], earliest(m));
}

/// Exchanging two entries keeps the events the same.
proof fn lemma_swap_keeps_events(s: Seq<Event>, i: int, j: int)
    requires
        0 <= i < s.len(),
        0 <= j < s.len(),
    ensures
        s.update(i, s[j]).update(j, s[i]).to_multiset() == s.to_multiset(),
{
    broadcast use group_multiset_axioms;
    broadcast use to_multiset_contains;

    let s1 = s.update(i, s[j]);
    to_multiset_update(s, i, s[j]);
    to_multiset_update(s1, j, s[i]);
    assert(s.contains(s[i]));
    assert(s.contains(s[j]));
    assert(s1.update(j, s[i]).to_multiset() =~= s.to_multiset());
}

/// Exchanges the events at `i` and `j`.
fn swap_events(v: &mut Vec<Event>, i: usize, j: usize)
    requires
        i < old(v)@.len(),
        j < old(v)@.len(),
    ensures
        final(v)@ == old(v)@.update(i as int, old(v)@[j as int]).update(j as int, old(v)@[i as int]),
        final(v)@.to_multiset() == old(v)@.to_multiset(),
{
    proof {
        lemma_swap_keeps_events(v@, i as int, j as int);
    }
    let a = v[i];
    let b = v[j];
    v[i] = b;
    v[j] = a;
}

/// Moves the event at `start` up until the heap order holds again.
fn sift_up(v: &mut Vec<Event>, start: usize)
    requires
        start < old(v)@.len(),
        ordered_but_above(old(v)@, start as int),
    ensures
        heap_ordered(final(v)@),
        final(v)@.to_multiset() == old(v)@.to_multiset(),
{
    let mut i = start;
    while i > 0
        invariant
            i < v@.len(),
            ordered_but_above(v@, i as int),
            v@.to_multiset() == old(v)@.to_multiset(),
        ensures
            heap_ordered(v@),
            v@.to_multiset() == old(v)@.to_multiset(),
        decreases i,
    {
        let p = (i - 1) / 2;
        if v[p].is_before_or_same(&v[i]) {
            assert(ordered_at(v@, i as int));
            break;
        }
        let ghost s = v@;
        swap_events(v, i, p);
        proof {
            let t = v@;
            lemma_precedes_total(s[p as int], s[i as int]);
            assert forall|j: int| 0 < j < t.len() && j != p implies #[trigger] ordered_at(t, j) by {
                if j == i {
                } else if parent(j) == i {
                    assert(spans(s, j));
                } else if parent(j) == p {
                    assert(ordered_at(s, j));
                    lemma_precedes_transitive(s[i as int], s[p as int], s[j]);
                } else {
                    assert(ordered_at(s, j));
                }
            }
            assert forall|j: int| 0 < j < t.len() && p > 0 && parent(j) == p implies #[trigger] spans(
                t,
                j,
            ) by {
                assert(ordered_at(s, p as int));
                if j != i {
                    assert(ordered_at(s, j));
                    lemma_precedes_transitive(s[parent(p as int)], s[p as int], s[j]);
                }
            }
        }
        i = p;
    }
}

/// Moves the event at the root down until the heap order holds again.
fn sift_down(v: &mut Vec<Event>)
    requires
        ordered_but_below(old(v)@, 0),
    ensures
        heap_ordered(final(v)@),
        final(v)@.to_multiset() == old(v)@.to_multiset(),
{
    let len = v.len();
    let mut i: usize = 0;
    while i < len / 2
        invariant
            len == v@.len(),
            ordered_but_below(v@, i as int),
            v@.to_multiset() == old(v)@.to_multiset(),
        ensures
            heap_ordered(v@),
            v@.to_multiset() == old(v)@.to_multiset(),
        decreases len - i,
    {
        let left = 2 * i + 1;
        let right = left + 1;
        let child = if right < len && !v[left].is_before_or_same(&v[right]) {
            right
        } else {
            left
        };
        let ghost s = v@;
        proof {
            if right < len {
                lemma_precedes_total(s[left as int], s[right as int]);
            }
        }
        if v[i].is_before_or_same(&v[child]) {
            proof {
                assert forall|j: int| 0 < j < s.len() implies #[trigger] ordered_at(s, j) by {
                    if parent(j) == i {
                        assert(j == left || j == right);
                        if j != child {
                            lemma_precedes_transitive(s[i as int], s[child as int], s[j]);
                        }
                    }
                }
            }
            break;
        }
        swap_events(v, i, child);
        proof {
            let t = v@;
            lemma_precedes_total(s[i as int], s[child as int]);
            assert forall|j: int| 0 < j < t.len() && parent(j) != child implies #[trigger] ordered_at(
                t,
                j,
            ) by {
                if j == child {
                } else if parent(j) == i {
                    assert(j == left || j == right);
                } else if j == i {
                    assert(spans(s, child as int));
                } else {
                    assert(ordered_at(s, j));
                }
            }
            assert forall|j: int| 0 < j < t.len() && child > 0 && parent(j) == child implies #[trigger] spans(
                t,
                j,
            ) by {
                assert(ordered_at(s, j));
            }
        }
        i = child;
    }
}

/// The pending events of a simulation.
///
/// As a value it is the multiset of the events it holds.  Events leave it in
/// the order given by [`Event::precedes`], whatever order they arrived in.
#[derive(Clone, Debug)]
pub struct EventQueue {
    heap: Vec<Event>,
}

impl View for EventQueue {
    type V = Multiset<Event>;

    closed spec fn view(&self) -> Multiset<Event> {
        self.heap@.to_multiset()
    }
}

impl EventQueue {
    /// The heap order holds between every node and the nodes below it.
    pub closed spec fn wf(&self) -> bool {
        heap_ordered(self.heap@)
    }

    /// An empty queue.
    pub fn new() -> (q: EventQueue)
        ensures
            q.wf(),
            q@ == Multiset::<Event>::empty(),
    {
        let q = EventQueue { heap: Vec::new() };
        proof {
            lemma_multiset_empty_len(q@);
            q.heap@.to_multiset_ensures();
        }
        q
    }

    /// The number of pending events.
    pub fn len(&self) -> (n: usize)
        ensures
            n == self@.len(),
    {
        proof {
            self.heap@.to_multiset_ensures();
        }
        self.heap.len()
    }

    /// Whether no event is pending.
    pub fn is_empty(&self) -> (b: bool)
        ensures
            b == (self@.len() == 0),
    {
        proof {
            self.heap@.to_multiset_ensures();
        }
        self.heap.len() == 0
    }

    /// Adds `event` to the pending events.
    pub fn push(&mut self, event: Event)
        requires
            old(self).wf(),
        ensures
            final(self).wf(),
            final(self)@ == old(self)@.insert(event),
    {
        proof {
            self.heap@.to_multiset_ensures();
        }
        self.heap.push(event);
        let last = self.heap.len() - 1;
        proof {
            let s = self.heap@;
            assert forall|i: int| 0 < i < s.len() && i != last implies #[trigger] ordered_at(s, i) by {
                assert(ordered_at(old(self).heap@, i));
            }
        }
        sift_up(&mut self.heap, last);
    }

    /// The event that is executed first, if any is pending.
    pub fn peek(&self) -> (next: Option<&Event>)
        requires
            self.wf(),
        ensures
            next is None <==> self@.len() == 0,
            next matches Some(e) ==> *e == earliest(self@),
    {
        proof {
            self.heap@.to_multiset_ensures();
        }
        if self.heap.len() == 0 {
            None
        } else {
            proof {
                lemma_root_is_earliest(self.heap@);
            }
            Some(&self.heap[0])
        }
    }

    /// The event that is executed first, provided that it is due at `now`.
    pub fn peek_due(&self, now: u64) -> (next: Option<&Event>)
        requires
            self.wf(),
        ensures
            next is None <==> next_due(self@, now as nat) is None,
            next matches Some(e) ==> next_due(self@, now as nat) == Some(*e),
    {
        match self.peek() {
            Some(e) if e.timestamp <= now => Some(e),
            _ => None,
        }
    }

    /// Removes and returns the event that is executed first, if any is
    /// pending.
    pub fn pop(&mut self) -> (next: Option<Event>)
        requires
            old(self).wf(),
        ensures
            final(self).wf(),
            next is None <==> old(self)@.len() == 0,
            next is None ==> final(self)@ == old(self)@,
            next matches Some(e) ==> e == earliest(old(self)@) && old(self)@.contains(e)
                && final(self)@ == old(self)@.remove(e),
    {
        let ghost s = self.heap@;
        proof {
            s.to_multiset_ensures();
        }
        let n = self.heap.len();
        if n == 0 {
            return None;
        }
        proof {
            lemma_root_is_earliest(s);
        }
        let top = self.heap[0];
        let last = self.heap.pop().unwrap();
        proof {
            assert(self.heap@ =~= s.remove(n - 1));
        }
        if n > 1 {
            let ghost r = self.heap@;
            self.heap[0] = last;
            proof {
                broadcast use group_multiset_axioms;
                broadcast use to_multiset_contains;

                let t = self.heap@;
                to_multiset_update(r, 0, last);
                assert(s.contains(s[0]));
                assert(s.contains(last));
                assert(t.to_multiset() =~= s.to_multiset().remove(top));
                assert forall|i: int| 0 < i < t.len() && parent(i) != 0 implies #[trigger] ordered_at(
                    t,
                    i,
                ) by {
                    assert(ordered_at(s, i));
                }
            }
            sift_down(&mut self.heap);
        } else {
            assert(last == top);
        }
        Some(top)
    }

    /// Removes and returns the event that is executed first, provided that
    /// it is due at `now`; leaves the queue alone otherwise.
    pub fn pop_due(&mut self, now: u64) -> (next: Option<Event>)
        requires
            old(self).wf(),
        ensures
            final(self).wf(),
            next == next_due(old(self)@, now as nat),
            next is None ==> final(self)@ == old(self)@,
            next matches Some(e) ==> old(self)@.contains(e) && final(self)@ == old(self)@.remove(e),
    {
        let due = match self.peek() {
            Some(e) => e.timestamp <= now,
            None => false,
        };
        if due {
            self.pop()
        } else {
            None
        }
    }

    /// Drops every pending event.
    pub fn clear(&mut self)
        ensures
            final(self).wf(),
            final(self)@ == Multiset::<Event>::empty(),
    {
        self.heap.clear();
        proof {
            lemma_multiset_empty_len(self@);
            self.heap@.to_multiset_ensures();
        }
    }
}

} // verus!
