//! Most-recently-used ordering for tab switching.
//!
//! Ctrl+Tab walks this list, not the order tabs appear in the bar: recency is
//! the only ordering anyone can predict once there are many tabs.

use vstd::prelude::*;

use vstd::laws_eq::obeys_concrete_eq;
use vstd::std_specs::cmp::PartialEqSpec;

verus! {

/// Items in order of last use, most recent first, each at most once.
pub struct Mru<T: Copy + PartialEq> {
    order: Vec<T>,
}

/// `s` with every occurrence of `item` taken out, the rest in order.
pub open spec fn without<T>(s: Seq<T>, item: T) -> Seq<T> {
    s.filter(|x: T| x != item)
}

impl<T: Copy + PartialEq> View for Mru<T> {
    type V = Seq<T>;

    closed spec fn view(&self) -> Seq<T> {
        self.order@
    }
}

impl<T: Copy + PartialEq> Default for Mru<T> {
    fn default() -> (r: Self)
        ensures
            r@ == Seq::<T>::empty(),
    {
        Mru { order: Vec::new() }
    }
}

/// Dropping an item from a sequence without repeats keeps it without repeats,
/// and leaves the item out.
proof fn lemma_without<T>(s: Seq<T>, item: T)
    ensures
        s.no_duplicates() ==> without(s, item).no_duplicates(),
        !without(s, item).contains(item),
        forall|x: T| #[trigger] without(s, item).contains(x) <==> (s.contains(x) && x != item),
        !s.contains(item) ==> without(s, item) == s,
    decreases s.len(),
{
    reveal_with_fuel(Seq::filter, 1);
    if s.len() > 0 {
        let t = s.drop_last();
        lemma_without(t, item);
        assert forall|x: T| #[trigger] s.contains(x) <==> (t.contains(x) || x == s.last()) by {
            if s.contains(x) {
                let i = choose|i: int| 0 <= i < s.len() && s[i] == x;
                if i < s.len() - 1 {
                    assert(t[i] == x);
                }
            }
            if t.contains(x) {
                let i = choose|i: int| 0 <= i < t.len() && t[i] == x;
                assert(s[i] == x);
            }
            if x == s.last() {
                assert(s[s.len() - 1] == x);
            }
        }
        let w = without(t, item);
        if s.last() != item {
            assert(without(s, item) == w.push(s.last()));
            assert forall|x: T| #[trigger] w.push(s.last()).contains(x) <==> (w.contains(x) || x
                == s.last()) by {
                if w.push(s.last()).contains(x) {
                    let i = choose|i: int| 0 <= i < w.len() + 1 && w.push(s.last())[i] == x;
                    if i < w.len() {
                        assert(w[i] == x);
                    }
                }
                if w.contains(x) {
                    let i = choose|i: int| 0 <= i < w.len() && w[i] == x;
                    assert(w.push(s.last())[i] == x);
                }
                if x == s.last() {
                    assert(w.push(s.last())[w.len() as int] == x);
                }
            }
            if s.no_duplicates() {
                assert(t.no_duplicates());
                assert(!t.contains(s.last())) by {
                    if t.contains(s.last()) {
                        let i = choose|i: int| 0 <= i < t.len() && t[i] == s.last();
                        assert(s[i] == s[s.len() - 1]);
                    }
                }
                assert(!w.contains(s.last()));
                assert forall|i: int, j: int|
                    0 <= i < w.len() + 1 && 0 <= j < w.len() + 1 && i != j implies w.push(
                    s.last(),
                )[i] != w.push(s.last())[j] by {
                    if i < w.len() && j < w.len() {
                    } else if i < w.len() {
                        assert(w.contains(w[i]));
                    } else {
                        assert(w.contains(w[j]));
                    }
                }
            }
            if !s.contains(item) {
                assert(!t.contains(item));
                assert(s == t.push(s.last()));
            }
        } else {
            assert(without(s, item) == w);
            assert(s.contains(item));
            if s.no_duplicates() {
                assert(t.no_duplicates());
            }
        }
    }
}

impl<T: Copy + PartialEq> Mru<T> {
    /// No item is listed twice.
    #[verifier::type_invariant]
    spec fn distinct(self) -> bool {
        self.order@.no_duplicates()
    }

    /// The items other than `item`, in order.
    fn others(&self, item: T) -> (r: Vec<T>)
        requires
            obeys_concrete_eq::<T>(),
        ensures
            r@ == without(self@, item),
    {
        proof {
            reveal(obeys_concrete_eq);
        }
        let mut out: Vec<T> = Vec::new();
        let mut i: usize = 0;
        while i < self.order.len()
            invariant
                obeys_concrete_eq::<T>(),
                T::obeys_eq_spec(),
                forall|x: T, y: T| x.eq_spec(&y) <==> (x == y),
                i <= self.order@.len(),
                out@ == without(self.order@.take(i as int), item),
            decreases self.order@.len() - i,
        {
            let x = self.order[i];
            proof {
                let s = self.order@.take(i + 1);
                assert(s.drop_last() == self.order@.take(i as int));
                reveal_with_fuel(Seq::filter, 1);
            }
            if x != item {
                out.push(x);
            }
            i += 1;
        }
        assert(self.order@.take(self.order@.len() as int) == self.order@);
        out
    }

    /// Moves an item to the front, inserting it if it is new.
    pub fn touch(&mut self, item: T)
        requires
            obeys_concrete_eq::<T>(),
        ensures
            final(self)@ == seq![item] + without(old(self)@, item),
            final(self)@.no_duplicates(),
    {
        proof {
            use_type_invariant(&*self);
            lemma_without(self@, item);
        }
        let rest = self.others(item);
        let mut order: Vec<T> = Vec::new();
        order.push(item);
        let mut i: usize = 0;
        while i < rest.len()
            invariant
                i <= rest@.len(),
                order@ == seq![item] + rest@.take(i as int),
            decreases rest@.len() - i,
        {
            order.push(rest[i]);
            assert(rest@.take(i + 1) == rest@.take(i as int).push(rest@[i as int]));
            i += 1;
        }
        proof {
            assert(rest@.take(rest@.len() as int) == rest@);
            let s = seq![item] + rest@;
            assert forall|a: int, b: int| 0 <= a < s.len() && 0 <= b < s.len() && a != b implies s[a]
                != s[b] by {
                if a == 0 && b > 0 {
                    assert(rest@.contains(s[b]));
                } else if b == 0 && a > 0 {
                    assert(rest@.contains(s[a]));
                } else if a > 0 && b > 0 {
                    assert(s[a] == rest@[a - 1]);
                    assert(s[b] == rest@[b - 1]);
                }
            }
        }
        self.order = order;
    }

    /// Takes an item out, leaving the rest in order.
    pub fn remove(&mut self, item: T)
        requires
            obeys_concrete_eq::<T>(),
        ensures
            final(self)@ == without(old(self)@, item),
            final(self)@.no_duplicates(),
    {
        proof {
            use_type_invariant(&*self);
            lemma_without(self@, item);
        }
        let rest = self.others(item);
        self.order = rest;
    }

    /// The item `steps` places back from the front, wrapping around; one step
    /// from the front is the previously used item.
    pub fn nth(&self, steps: usize) -> (r: Option<T>)
        ensures
            self@.no_duplicates(),
            self@.len() == 0 ==> r is None,
            self@.len() > 0 ==> r == Some(self@[steps as int % self@.len() as int]),
    {
        proof {
            use_type_invariant(self);
        }
        if self.order.len() == 0 {
            return None;
        }
        Some(self.order[steps % self.order.len()])
    }

    /// The most recently used item.
    pub fn front(&self) -> (r: Option<T>)
        ensures
            self@.len() == 0 ==> r is None,
            self@.len() > 0 ==> r == Some(self@[0]),
    {
        if self.order.len() == 0 {
            None
        } else {
            Some(self.order[0])
        }
    }

    /// The items, most recent first.
    pub fn as_slice(&self) -> (r: &[T])
        ensures
            r@ == self@,
            r@.no_duplicates(),
    {
        proof {
            use_type_invariant(self);
        }
        self.order.as_slice()
    }

    pub fn len(&self) -> (r: usize)
        ensures
            r == self@.len(),
    {
        self.order.len()
    }

    pub fn is_empty(&self) -> (r: bool)
        ensures
            r == (self@.len() == 0),
    {
        self.order.len() == 0
    }
}

/// Touching an item puts it first; each item is still listed once; touching
/// an item already listed keeps the length, a new one adds one.
pub proof fn touching_moves_to_the_front<T>(s: Seq<T>, item: T)
    requires
        s.no_duplicates(),
    ensures
        (seq![item] + without(s, item))[0] == item,
        (seq![item] + without(s, item)).no_duplicates(),
        s.contains(item) ==> (seq![item] + without(s, item)).len() == s.len(),
        !s.contains(item) ==> (seq![item] + without(s, item)).len() == s.len() + 1,
{
    lemma_without(s, item);
    let w = without(s, item);
    let t = seq![item] + w;
    assert forall|a: int, b: int| 0 <= a < t.len() && 0 <= b < t.len() && a != b implies t[a]
        != t[b] by {
        if a == 0 && b > 0 {
            assert(w.contains(t[b]));
        } else if b == 0 && a > 0 {
            assert(w.contains(t[a]));
        } else if a > 0 && b > 0 {
            assert(t[a] == w[a - 1]);
            assert(t[b] == w[b - 1]);
        }
    }
    if s.contains(item) {
        lemma_without_len(s, item);
    }
}

/// Taking out an item that occurs once shortens the sequence by one.
proof fn lemma_without_len<T>(s: Seq<T>, item: T)
    requires
        s.no_duplicates(),
        s.contains(item),
    ensures
        without(s, item).len() == s.len() - 1,
    decreases s.len(),
{
    reveal_with_fuel(Seq::filter, 1);
    let t = s.drop_last();
    lemma_without(t, item);
    if s.last() == item {
        assert(!t.contains(item)) by {
            if t.contains(item) {
                let i = choose|i: int| 0 <= i < t.len() && t[i] == item;
                assert(s[i] == s[s.len() - 1]);
            }
        }
    } else {
        let i = choose|i: int| 0 <= i < s.len() && s[i] == item;
        assert(t[i] == item);
        assert(t.no_duplicates());
        lemma_without_len(t, item);
    }
}

/// After touching `a` and then a different `b`, one step back from the front
/// is `a`: the previously used item.
pub proof fn one_step_back_is_the_previous_item<T>(s: Seq<T>, a: T, b: T)
    requires
        a != b,
    ensures
        ({
            let after_a = seq![a] + without(s, a);
            let after_b = seq![b] + without(after_a, b);
            after_b.len() >= 2 && after_b[1] == a
        }),
{
    filter_front(without(s, a), a, b);
}

/// Filtering a sequence that starts with a kept item keeps it in front.
proof fn filter_front<T>(w: Seq<T>, a: T, b: T)
    requires
        a != b,
    ensures
        without(seq![a] + w, b).len() >= 1,
        without(seq![a] + w, b)[0] == a,
{
    broadcast use Seq::filter_distributes_over_add;
    reveal_with_fuel(Seq::filter, 2);
    assert(seq![a].drop_last() == Seq::<T>::empty());
    assert(without(seq![a], b) == seq![a]);
    assert(without(seq![a] + w, b) == without(seq![a], b) + without(w, b));
}

/// Ctrl+Tab goes to the item one step back; pressing it again comes back to
/// where it started: after touching the second item of a list with no
/// repeats, one step back from the front is the old front.
pub proof fn pressing_ctrl_tab_again_comes_back<T>(s: Seq<T>)
    requires
        s.no_duplicates(),
        s.len() >= 2,
    ensures
        ({
            let t = seq![s[1int % (s.len() as int)]] + without(s, s[1int % (s.len() as int)]);
            t.len() >= 2 && t[1int % (t.len() as int)] == s[0]
        }),
{
    let n: int = s.len() as int;
    assert(1int % n == 1) by (nonlinear_arith)
        requires
            n >= 2,
    ;
    assert(s[0] != s[1]);
    assert(s == seq![s[0]] + s.skip(1));
    filter_front(s.skip(1), s[0], s[1]);
    lemma_without(s, s[1]);
    lemma_without_len(s, s[1]);
    let t = seq![s[1]] + without(s, s[1]);
    assert(t.len() == s.len());
    assert(1int % (t.len() as int) == 1);
}

} // verus!
