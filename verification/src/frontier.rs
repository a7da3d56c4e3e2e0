//! The merge frontier: a priority queue of the sources that hold an entry,
//! smallest key first.

use vstd::prelude::*;
use vstd::multiset::Multiset;

verus! {

/// The place of one source in the frontier: the key of the entry that the
/// source holds, and the source's index.
#[derive(Clone, Copy, Debug, PartialEq, Eq, Structural)]
pub struct Slot {
    pub key: i64,
    pub source: usize,
}

/// A binary min-heap of slots, ordered by key.
pub struct Frontier {
    slots: Vec<Slot>,
}

/// The index of the parent of the heap position `i`.
pub open spec fn parent(i: int) -> int {
    (i - 1) / 2
}

/// Every slot but the one at `hole` is no smaller than its parent.
#[verifier::opaque]
pub open spec fn ordered_but(s: Seq<Slot>, hole: int) -> bool {
    forall|k: int| 0 < k < s.len() && k != hole ==> s[parent(k)].key <= (#[trigger] s[k]).key
}

/// Every slot is no smaller than its parent.
#[verifier::opaque]
pub open spec fn ordered(s: Seq<Slot>) -> bool {
    forall|k: int| 0 < k < s.len() ==> s[parent(k)].key <= (#[trigger] s[k]).key
}

/// Every slot is no smaller than its parent, but for the children of `hole`.
#[verifier::opaque]
pub open spec fn ordered_below(s: Seq<Slot>, hole: int) -> bool {
    forall|k: int|
        0 < k < s.len() && parent(k) != hole ==> s[parent(k)].key <= (#[trigger] s[k]).key
}

/// The children of `hole` are no smaller than the parent of `hole`.
#[verifier::opaque]
pub open spec fn bridged(s: Seq<Slot>, hole: int) -> bool {
    hole > 0 ==> forall|k: int|
        0 < k < s.len() && parent(k) == hole ==> s[parent(hole)].key <= (#[trigger] s[k]).key
}

/// In a heap the root is no larger than any slot.
pub proof fn lemma_root_is_least(s: Seq<Slot>, i: int)
    requires
        ordered(s),
        0 <= i < s.len(),
    ensures
        s[0].key <= s[i].key,
    decreases i,
{
    reveal(ordered);
    if i > 0 {
        lemma_root_is_least(s, parent(i));
    }
}

/// The sequence `s` with the slots at `i` and `j` exchanged.
pub open spec fn exchanged(s: Seq<Slot>, i: int, j: int) -> Seq<Slot> {
    s.update(i, s[j]).update(j, s[i])
}

/// Exchanging two slots keeps the multiset of slots.
pub proof fn lemma_exchange(s: Seq<Slot>, i: int, j: int)
    requires
        0 <= i < s.len(),
        0 <= j < s.len(),
    ensures
        exchanged(s, i, j).to_multiset() == s.to_multiset(),
        exchanged(s, i, j).len() == s.len(),
{
    broadcast use vstd::seq_lib::group_to_multiset_ensures;
    broadcast use vstd::multiset::group_multiset_axioms;

    assert(s.to_multiset().count(s[i]) > 0);
    assert(s.to_multiset().count(s[j]) > 0);
}

/// The children of the position `i` are the positions `2i + 1` and `2i + 2`.
pub proof fn lemma_children(i: int, k: int)
    requires
        0 <= i,
        0 < k,
    ensures
        parent(k) == i <==> k == 2 * i + 1 || k == 2 * i + 2,
        parent(k) < k,
        0 <= parent(k),
{
}

/// A slot that is smaller than its parent moves up: after the exchange
/// only the parent's position may be out of order.
pub proof fn lemma_moved_up(s: Seq<Slot>, i: int)
    requires
        0 < i < s.len(),
        ordered_but(s, i),
        bridged(s, i),
        s[i].key < s[parent(i)].key,
    ensures
        ordered_but(exchanged(s, i, parent(i)), parent(i)),
        bridged(exchanged(s, i, parent(i)), parent(i)),
{
    reveal(ordered_but);
    reveal(bridged);
    let up = parent(i);
    let t = exchanged(s, i, up);
    lemma_children(up, i);
    assert forall|k: int| 0 < k < t.len() && k != up implies t[parent(k)].key <= (#[trigger] t[k]).key by {
        lemma_children(parent(k), k);
    }
    if up > 0 {
        lemma_children(parent(up), up);
    }
}

/// A slot that is no smaller than its parent is in its place.
pub proof fn lemma_rests_up(s: Seq<Slot>, i: int)
    requires
        0 <= i < s.len(),
        ordered_but(s, i),
        i > 0 ==> s[parent(i)].key <= s[i].key,
    ensures
        ordered(s),
{
    reveal(ordered);
    reveal(ordered_but);
}

/// A slot that is larger than its smaller child moves down: after the
/// exchange only the children of the child's position may be out of order.
pub proof fn lemma_moved_down(s: Seq<Slot>, i: int, down: int)
    requires
        0 <= i < down < s.len(),
        parent(down) == i,
        ordered_below(s, i),
        bridged(s, i),
        forall|k: int| 0 < k < s.len() && parent(k) == i ==> s[down].key <= (#[trigger] s[k]).key,
        s[down].key < s[i].key,
    ensures
        ordered_below(exchanged(s, i, down), down),
        bridged(exchanged(s, i, down), down),
{
    reveal(ordered_below);
    reveal(bridged);
    let t = exchanged(s, i, down);
    assert forall|k: int| 0 < k < t.len() && parent(k) != down implies t[parent(k)].key <= (
    #[trigger] t[k]).key by {
        lemma_children(parent(k), k);
    }
    assert forall|k: int| 0 < k < t.len() && parent(k) == down implies t[parent(down)].key <= (
    #[trigger] t[k]).key by {
        lemma_children(down, k);
    }
}

/// A slot that is no larger than its children is in its place.
pub proof fn lemma_rests_down(s: Seq<Slot>, i: int)
    requires
        0 <= i < s.len(),
        ordered_below(s, i),
        forall|k: int| 0 < k < s.len() && parent(k) == i ==> s[i].key <= (#[trigger] s[k]).key,
    ensures
        ordered(s),
{
    reveal(ordered);
    reveal(ordered_below);
}

/// A heap with one more slot at its end is out of order at most there.
pub proof fn lemma_pushed(s: Seq<Slot>, slot: Slot)
    requires
        ordered(s),
    ensures
        ordered_but(s.push(slot), s.len() as int),
        bridged(s.push(slot), s.len() as int),
{
    reveal(ordered);
    reveal(ordered_but);
    reveal(bridged);
    let t = s.push(slot);
    assert forall|k: int| 0 < k < t.len() && k != s.len() implies t[parent(k)].key <= (#[trigger] t[k]).key by {
        lemma_children(parent(k), k);
        assert(s[parent(k)].key <= s[k].key);
    }
    assert forall|k: int| 0 < k < t.len() && parent(k) == s.len() implies false by {
        lemma_children(s.len() as int, k);
    }
}

/// A heap whose last slot has taken the place of its root is out of order
/// at most between the root and its children.
pub proof fn lemma_seated(s: Seq<Slot>)
    requires
        ordered(s),
        s.len() >= 2,
    ensures
        ordered_below(s.drop_last().update(0, s.last()), 0),
        bridged(s.drop_last().update(0, s.last()), 0),
{
    reveal(ordered);
    reveal(ordered_below);
    reveal(bridged);
    let t = s.drop_last().update(0, s.last());
    assert forall|k: int| 0 < k < t.len() && parent(k) != 0 implies t[parent(k)].key <= (#[trigger] t[k]).key by {
        lemma_children(parent(k), k);
    }
}

/// The empty sequence and the sequence of one slot are heaps.
pub proof fn lemma_small(s: Seq<Slot>)
    requires
        s.len() <= 1,
    ensures
        ordered(s),
{
    reveal(ordered);
}

impl Frontier {
    /// The slots that the frontier holds.
    pub closed spec fn view(&self) -> Multiset<Slot> {
        self.slots@.to_multiset()
    }

    /// The heap order.
    pub closed spec fn wf(&self) -> bool {
        ordered(self.slots@)
    }

    /// The number of slots held.
    pub closed spec fn spec_len(&self) -> nat {
        self.slots@.len()
    }

    /// The count of slots is the size of the view.
    pub proof fn lemma_len(&self)
        ensures
            self.spec_len() == self@.len(),
    {
        broadcast use vstd::seq_lib::group_to_multiset_ensures;

    }

    /// The empty frontier.
    pub fn new() -> (r: Frontier)
        ensures
            r.wf(),
            r@ == Multiset::<Slot>::empty(),
            r.spec_len() == 0,
    {
        let r = Frontier { slots: Vec::new() };
        proof {
            lemma_small(r.slots@);
        }
        assert(r.slots@.to_multiset() =~= Multiset::<Slot>::empty()) by {
            broadcast use vstd::seq_lib::group_to_multiset_ensures;
            broadcast use vstd::multiset::group_multiset_axioms;

        }
        r
    }

    /// The number of slots held.
    pub fn len(&self) -> (r: usize)
        ensures
            r == self.spec_len(),
            r == self@.len(),
    {
        proof {
            self.lemma_len();
        }
        self.slots.len()
    }

    /// Whether no slot is held.
    pub fn is_empty(&self) -> (r: bool)
        ensures
            r == (self@.len() == 0),
    {
        proof {
            self.lemma_len();
        }
        self.slots.len() == 0
    }

    /// Adds a slot.
    pub fn push(&mut self, slot: Slot)
        requires
            old(self).wf(),
        ensures
            final(self).wf(),
            final(self)@ == old(self)@.insert(slot),
            final(self).spec_len() == old(self).spec_len() + 1,
    {
        proof {
            broadcast use vstd::seq_lib::group_to_multiset_ensures;

            lemma_pushed(self.slots@, slot);
        }
        self.slots.push(slot);
        let ghost pushed = self.slots@;
        let mut i: usize = self.slots.len() - 1;
        while i > 0
            invariant
                i < self.slots.len(),
                self.slots@.len() == pushed.len(),
                self.slots@.to_multiset() == pushed.to_multiset(),
                ordered_but(self.slots@, i as int),
                bridged(self.slots@, i as int),
            ensures
                i == 0 ==> ordered_but(self.slots@, 0),
                i > 0 ==> ordered(self.slots@),
                i < self.slots.len(),
                self.slots@.len() == pushed.len(),
                self.slots@.to_multiset() == pushed.to_multiset(),
            decreases i,
        {
            let up: usize = (i - 1) / 2;
            let here = self.slots[i];
            let above = self.slots[up];
            if here.key < above.key {
                proof {
                    lemma_exchange(self.slots@, i as int, up as int);
                    lemma_moved_up(self.slots@, i as int);
                }
                self.slots[i] = above;
                self.slots[up] = here;
                i = up;
            } else {
                proof {
                    lemma_rests_up(self.slots@, i as int);
                }
                break ;
            }
        }
        proof {
            if i == 0 {
                lemma_rests_up(self.slots@, 0);
            }
        }
    }

    /// Takes out a slot of the smallest key, if there is any slot.
    pub fn pop(&mut self) -> (r: Option<Slot>)
        requires
            old(self).wf(),
        ensures
            final(self).wf(),
            match r {
                Some(least) => {
                    &&& old(self)@.count(least) > 0
                    &&& final(self)@ == old(self)@.remove(least)
                    &&& final(self).spec_len() + 1 == old(self).spec_len()
                    &&& forall|other: Slot| old(self)@.count(other) > 0 ==> least.key <= other.key
                },
                None => old(self)@.len() == 0 && final(self)@ == old(self)@,
            },
    {
        proof {
            self.lemma_len();
        }
        if self.slots.len() == 0 {
            return None;
        }
        let ghost before = self.slots@;
        let least = self.slots[0];
        proof {
            broadcast use vstd::seq_lib::group_to_multiset_ensures;

            assert forall|other: Slot| before.to_multiset().count(other) > 0 implies least.key
                <= other.key by {
                let at = choose|at: int| 0 <= at < before.len() && before[at] == other;
                lemma_root_is_least(before, at);
            }
        }
        let last = self.slots.pop().unwrap();
        proof {
            broadcast use vstd::seq_lib::group_to_multiset_ensures;
            broadcast use vstd::multiset::group_multiset_axioms;

            assert(self.slots@ == before.remove(before.len() - 1));
        }
        if self.slots.len() == 0 {
            proof {
                lemma_small(self.slots@);
            }
            return Some(least);
        }
        self.slots[0] = last;
        let ghost seated = self.slots@;
        proof {
            broadcast use vstd::seq_lib::group_to_multiset_ensures;
            broadcast use vstd::multiset::group_multiset_axioms;

            lemma_seated(before);
        }
        let len: usize = self.slots.len();
        let mut i: usize = 0;
        loop
            invariant
                i < len,
                len == self.slots.len(),
                self.slots@.to_multiset() == seated.to_multiset(),
                ordered_below(self.slots@, i as int),
                bridged(self.slots@, i as int),
            ensures
                ordered(self.slots@),
                self.slots@.to_multiset() == seated.to_multiset(),
                len == self.slots.len(),
            decreases len - i,
        {
            if len < 2 || i > (len - 2) / 2 {
                proof {
                    assert forall|k: int| 0 < k < len && parent(k) == i implies self.slots@[i as int].key <= (
                    #[trigger] self.slots@[k]).key by {
                        lemma_children(i as int, k);
                    }
                    lemma_rests_down(self.slots@, i as int);
                }
                break ;
            }
            let left: usize = 2 * i + 1;
            let mut down: usize = left;
            if left < len - 1 {
                if self.slots[left + 1].key < self.slots[left].key {
                    down = left + 1;
                }
            }
            let here = self.slots[i];
            let below = self.slots[down];
            proof {
                lemma_children(i as int, down as int);
                assert forall|k: int| 0 < k < len && parent(k) == i implies below.key <= (
                #[trigger] self.slots@[k]).key by {
                    lemma_children(i as int, k);
                }
            }
            if below.key < here.key {
                proof {
                    lemma_exchange(self.slots@, i as int, down as int);
                    lemma_moved_down(self.slots@, i as int, down as int);
                }
                self.slots[i] = below;
                self.slots[down] = here;
                i = down;
            } else {
                proof {
                    lemma_rests_down(self.slots@, i as int);
                }
                break ;
            }
        }
        Some(least)
    }
}

} // verus!
