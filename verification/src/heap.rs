//! A binary heap over totally ordered items.

use vstd::multiset::Multiset;
use vstd::prelude::*;

verus! {

/// A position in the order of a heap: the item with the smallest rank comes
/// out first.
pub type Rank = (int, int, int, int);

/// Lexicographic order on ranks.
pub open spec fn rank_lt(a: Rank, b: Rank) -> bool {
    ||| a.0 < b.0
    ||| a.0 == b.0 && a.1 < b.1
    ||| a.0 == b.0 && a.1 == b.1 && a.2 < b.2
    ||| a.0 == b.0 && a.1 == b.1 && a.2 == b.2 && a.3 < b.3
}

/// An item with a place in a total order.
pub trait Ranked: Sized + Copy {
    spec fn rank(self) -> Rank;

    /// Different items have different ranks.
    proof fn rank_is_injective(a: Self, b: Self)
        requires
            a.rank() == b.rank(),
        ensures
            a == b,
    ;

    /// Whether `self` comes out before `other`.
    fn precedes(&self, other: &Self) -> (r: bool)
        ensures
            r == rank_lt(self.rank(), other.rank()),
    ;
}

/// Whether `x` is an item of `m` that no other item precedes.
pub open spec fn is_first<T: Ranked>(m: Multiset<T>, x: T) -> bool {
    m.contains(x) && forall|y: T| #[trigger] m.contains(y) ==> !rank_lt(y.rank(), x.rank())
}

/// The item of `m` that comes out first.
pub open spec fn first_of<T: Ranked>(m: Multiset<T>) -> T {
    choose|x: T| is_first(m, x)
}

/// Only one item can be the first.
pub proof fn lemma_first_is_unique<T: Ranked>(m: Multiset<T>, x: T)
    requires
        is_first(m, x),
    ensures
        first_of(m) == x,
{
    let y = first_of(m);
    assert(is_first(m, y));
    assert(!rank_lt(y.rank(), x.rank()) && !rank_lt(x.rank(), y.rank()));
    T::rank_is_injective(x, y);
}

/// A non-empty multiset has a first item.
pub proof fn lemma_first_exists<T: Ranked>(m: Multiset<T>)
    requires
        m.len() > 0,
    ensures
        is_first(m, first_of(m)),
    decreases m.len(),
{
    broadcast use vstd::multiset::group_multiset_axioms;

    let x = m.choose();
    assert(m.contains(x));
    let rest = m.remove(x);
    if rest.len() == 0 {
        assert forall|y: T| #[trigger] m.contains(y) implies !rank_lt(y.rank(), x.rank()) by {
            if y != x {
                assert(rest.count(y) == m.count(y));
                assert(rest.count(y) <= rest.len());
            }
        }
        assert(is_first(m, x));
    } else {
        lemma_first_exists(rest);
        let f = first_of(rest);
        assert(m.contains(f));
        if rank_lt(x.rank(), f.rank()) {
            assert forall|y: T| #[trigger] m.contains(y) implies !rank_lt(y.rank(), x.rank()) by {
                if y != x {
                    assert(rest.contains(y));
                }
            }
            assert(is_first(m, x));
        } else {
            assert forall|y: T| #[trigger] m.contains(y) implies !rank_lt(y.rank(), f.rank()) by {
                if y != x {
                    assert(rest.contains(y));
                }
            }
            assert(is_first(m, f));
        }
    }
}

/// A priority queue: [`Heap::pop`] yields the item of the smallest rank.
pub struct Heap<T: Ranked> {
    items: Vec<T>,
}

spec fn parent(i: int) -> int {
    (i - 1) / 2
}

/// No item precedes its parent, except perhaps the item at `hole`.
spec fn ordered_but<T: Ranked>(s: Seq<T>, hole: int) -> bool {
    forall|j: int|
        #![trigger s[j]]
        0 < j < s.len() && j != hole ==> !rank_lt(s[j].rank(), s[parent(j)].rank())
}

/// No item precedes its parent, except perhaps the children of `hole`.
spec fn ordered_above<T: Ranked>(s: Seq<T>, hole: int) -> bool {
    forall|j: int|
        #![trigger s[j]]
        0 < j < s.len() && parent(j) != hole ==> !rank_lt(s[j].rank(), s[parent(j)].rank())
}

/// The children of `hole` do not precede the parent of `hole`.
spec fn bridged<T: Ranked>(s: Seq<T>, hole: int) -> bool {
    hole > 0 ==> forall|j: int|
        #![trigger s[j]]
        0 < j < s.len() && parent(j) == hole ==> !rank_lt(s[j].rank(), s[parent(hole)].rank())
}

spec fn swapped<T>(s: Seq<T>, i: int, j: int) -> Seq<T> {
    s.update(i, s[j]).update(j, s[i])
}

proof fn lemma_swapped_multiset<T>(s: Seq<T>, i: int, j: int)
    requires
        0 <= i < s.len(),
        0 <= j < s.len(),
    ensures
        swapped(s, i, j).to_multiset() == s.to_multiset(),
{
    broadcast use vstd::multiset::group_multiset_axioms;
    broadcast use vstd::seq_lib::group_to_multiset_ensures;

    vstd::seq_lib::to_multiset_update(s, i, s[j]);
    vstd::seq_lib::to_multiset_update(s.update(i, s[j]), j, s[i]);
    assert(s.contains(s[i]));
    assert(s.contains(s[j]));
    assert(swapped(s, i, j).to_multiset() =~= s.to_multiset());
}

proof fn lemma_root_is_first<T: Ranked>(s: Seq<T>, i: int)
    requires
        ordered_but(s, 0),
        0 <= i < s.len(),
    ensures
        !rank_lt(s[i].rank(), s[0].rank()),
    decreases i,
{
    if i > 0 {
        lemma_root_is_first(s, parent(i));
        assert(!rank_lt(s[i].rank(), s[parent(i)].rank()));
    }
}

/// Moves the last item up to its place.
fn sift_up<T: Ranked>(items: &mut Vec<T>)
    requires
        old(items)@.len() > 0,
        ordered_but(old(items)@, old(items)@.len() - 1),
    ensures
        ordered_but(final(items)@, 0),
        final(items)@.to_multiset() == old(items)@.to_multiset(),
{
    let mut i: usize = items.len() - 1;
    while i > 0
        invariant
            i < items@.len(),
            ordered_but(items@, i as int),
            bridged(items@, i as int),
            items@.to_multiset() == old(items)@.to_multiset(),
        decreases i,
    {
        let up: usize = (i - 1) / 2;
        let ghost before = items@;
        let child = items[i];
        let above = items[up];
        if !child.precedes(&above) {
            return;
        }
        items[i] = above;
        items[up] = child;
        proof {
            assert(items@ =~= swapped(before, up as int, i as int));
            lemma_swapped_multiset(before, up as int, i as int);
            let s = items@;
            assert forall|j: int| #![trigger s[j]]
                0 < j < s.len() && j != up implies !rank_lt(s[j].rank(), s[parent(j)].rank()) by {
                assert(!rank_lt(before[j].rank(), before[parent(j)].rank()) || j == i);
                if parent(j) == i {
                    assert(!rank_lt(before[j].rank(), before[parent(i as int)].rank()));
                }
            }
            assert forall|j: int| #![trigger s[j]]
                up > 0 && 0 < j < s.len() && parent(j) == up implies !rank_lt(
                s[j].rank(),
                s[parent(up as int)].rank(),
            ) by {
                assert(!rank_lt(before[up as int].rank(), before[parent(up as int)].rank()));
                if j != i {
                    assert(!rank_lt(before[j].rank(), before[up as int].rank()));
                }
            }
        }
        i = up;
    }
}

/// Moves the root down to its place.
fn sift_down<T: Ranked>(items: &mut Vec<T>)
    requires
        ordered_above(old(items)@, 0),
    ensures
        ordered_but(final(items)@, 0),
        final(items)@.to_multiset() == old(items)@.to_multiset(),
{
    let len: usize = items.len();
    let mut i: usize = 0;
    while i < len / 2
        invariant
            len == items@.len(),
            i <= len,
            ordered_above(items@, i as int),
            bridged(items@, i as int),
            items@.to_multiset() == old(items)@.to_multiset(),
        decreases len - i,
    {
        let ghost before = items@;
        let left: usize = 2 * i + 1;
        let right: usize = left + 1;
        let mut child: usize = left;
        if right < len && items[right].precedes(&items[left]) {
            child = right;
        }
        let low = items[child];
        let high = items[i];
        if !low.precedes(&high) {
            proof {
                let s = items@;
                assert forall|j: int| #![trigger s[j]] 0 < j < s.len() implies !rank_lt(
                    s[j].rank(),
                    s[parent(j)].rank(),
                ) by {
                    if parent(j) == i {
                        assert(j == left || j == right);
                    }
                }
            }
            return;
        }
        items[i] = low;
        items[child] = high;
        proof {
            assert(items@ =~= swapped(before, i as int, child as int));
            lemma_swapped_multiset(before, i as int, child as int);
            let s = items@;
            assert forall|j: int| #![trigger s[j]]
                0 < j < s.len() && parent(j) != child implies !rank_lt(
                s[j].rank(),
                s[parent(j)].rank(),
            ) by {
                if parent(j) == i {
                    assert(j == left || j == right);
                } else if j == i {
                    assert(!rank_lt(before[child as int].rank(), before[parent(i as int)].rank()));
                } else {
                    assert(!rank_lt(before[j].rank(), before[parent(j)].rank()));
                }
            }
            assert forall|j: int| #![trigger s[j]]
                0 < j < s.len() && parent(j) == child implies !rank_lt(
                s[j].rank(),
                s[parent(child as int)].rank(),
            ) by {
                assert(parent(child as int) == i);
                assert(!rank_lt(before[j].rank(), before[child as int].rank()));
            }
        }
        i = child;
    }
    proof {
        let s = items@;
        assert forall|j: int| #![trigger s[j]] 0 < j < s.len() implies !rank_lt(
            s[j].rank(),
            s[parent(j)].rank(),
        ) by {
            assert(parent(j) < len / 2);
        }
    }
}

impl<T: Ranked> Heap<T> {
    /// The heap order holds.
    pub closed spec fn wf(&self) -> bool {
        ordered_but(self.items@, 0)
    }

    /// The items held.
    pub closed spec fn view(&self) -> Multiset<T> {
        self.items@.to_multiset()
    }

    proof fn lemma_top(&self)
        requires
            self.wf(),
            self.items@.len() > 0,
        ensures
            is_first(self@, self.items@[0]),
            first_of(self@) == self.items@[0],
    {
        broadcast use vstd::seq_lib::group_to_multiset_ensures;

        let s = self.items@;
        assert(s.contains(s[0]));
        assert forall|y: T| #[trigger] self@.contains(y) implies !rank_lt(
            y.rank(),
            s[0].rank(),
        ) by {
            assert(s.contains(y));
            let i = choose|i: int| 0 <= i < s.len() && s[i] == y;
            lemma_root_is_first(s, i);
        }
        lemma_first_is_unique(self@, s[0]);
    }

    pub fn new() -> (r: Self)
        ensures
            r.wf(),
            r@ == Multiset::<T>::empty(),
    {
        let r = Heap { items: Vec::new() };
        proof {
            broadcast use vstd::seq_lib::group_to_multiset_ensures;

            assert(r.items@.to_multiset().len() == 0);
            assert(r@ =~= Multiset::<T>::empty());
        }
        r
    }

    pub fn len(&self) -> (r: usize)
        ensures
            r == self@.len(),
    {
        broadcast use vstd::seq_lib::group_to_multiset_ensures;

        self.items.len()
    }

    pub fn is_empty(&self) -> (r: bool)
        ensures
            r == (self@.len() == 0),
    {
        broadcast use vstd::seq_lib::group_to_multiset_ensures;

        self.items.len() == 0
    }

    /// The items, in no particular order.
    pub fn items(&self) -> (r: &Vec<T>)
        ensures
            r@.to_multiset() == self@,
    {
        &self.items
    }

    /// The item that comes out first, left in place.
    pub fn peek(&self) -> (r: Option<T>)
        requires
            self.wf(),
        ensures
            r is None <==> self@.len() == 0,
            r matches Some(x) ==> is_first(self@, x) && x == first_of(self@),
    {
        broadcast use vstd::seq_lib::group_to_multiset_ensures;

        if self.items.len() == 0 {
            None
        } else {
            proof {
                self.lemma_top();
            }
            Some(self.items[0])
        }
    }

    /// Adds an item.
    pub fn push(&mut self, item: T)
        requires
            old(self).wf(),
        ensures
            final(self).wf(),
            final(self)@ == old(self)@.insert(item),
    {
        broadcast use vstd::seq_lib::group_to_multiset_ensures;

        self.items.push(item);
        sift_up(&mut self.items);
    }

    /// Takes out the item that comes first.
    pub fn pop(&mut self) -> (r: Option<T>)
        requires
            old(self).wf(),
        ensures
            final(self).wf(),
            r is None <==> old(self)@.len() == 0,
            r is None ==> final(self)@ == old(self)@,
            r matches Some(x) ==> {
                &&& is_first(old(self)@, x)
                &&& x == first_of(old(self)@)
                &&& final(self)@ == old(self)@.remove(x)
            },
    {
        broadcast use vstd::seq_lib::group_to_multiset_ensures;

        if self.items.len() == 0 {
            return None;
        }
        proof {
            self.lemma_top();
        }
        let ghost start = self.items@;
        let top = self.items.swap_remove(0);
        proof {
            lemma_swap_remove_multiset(start);
            let s = self.items@;
            assert forall|j: int| #![trigger s[j]]
                0 < j < s.len() && parent(j) != 0 implies !rank_lt(
                s[j].rank(),
                s[parent(j)].rank(),
            ) by {
                assert(!rank_lt(start[j].rank(), start[parent(j)].rank()));
            }
        }
        sift_down(&mut self.items);
        Some(top)
    }

    /// Takes out every item, in no particular order.
    pub fn take_all(&mut self) -> (r: Vec<T>)
        ensures
            final(self).wf(),
            final(self)@ == Multiset::<T>::empty(),
            r@.to_multiset() == old(self)@,
    {
        let mut all: Vec<T> = Vec::new();
        core::mem::swap(&mut self.items, &mut all);
        proof {
            broadcast use vstd::seq_lib::group_to_multiset_ensures;

            assert(self.items@.to_multiset().len() == 0);
            assert(self@ =~= Multiset::<T>::empty());
        }
        all
    }
}

proof fn lemma_swap_remove_multiset<T>(s: Seq<T>)
    requires
        s.len() > 0,
    ensures
        s.update(0, s.last()).drop_last().to_multiset() == s.to_multiset().remove(s[0]),
{
    broadcast use vstd::multiset::group_multiset_axioms;
    broadcast use vstd::seq_lib::group_to_multiset_ensures;

    let u = s.update(0, s.last());
    vstd::seq_lib::to_multiset_update(s, 0, s.last());
    let d = u.drop_last();
    assert(d.push(u.last()) =~= u);
    vstd::seq_lib::to_multiset_build(d, u.last());
    assert(u.last() == s.last());
    assert(s.contains(s[0]));
    let left = d.to_multiset();
    let right = s.to_multiset().remove(s[0]);
    assert forall|v: T| left.count(v) == right.count(v) by {
        let whole = s.to_multiset();
        assert(whole.count(s[0]) > 0);
        assert(whole.insert(s.last()).remove(s[0]).count(v) == left.insert(s.last()).count(v));
    }
    assert(left =~= right);
}

} // verus!
