//! A bounded stack of reusable tokens and the handle that lends one out.
//!
//! The stack hands out the token that was returned last. Callers that take
//! turns on one stack never receive a token that another caller still holds:
//! a token leaves the stack when it is popped and is only there again after
//! it has been pushed back.

use vstd::prelude::*;

verus! {

/// A stack of at most `N` values.
pub struct ConcurrentStaticVec<T, const N: usize> {
    buf: Vec<T>,
}

impl<T, const N: usize> View for ConcurrentStaticVec<T, N> {
    type V = Seq<T>;

    closed spec fn view(&self) -> Seq<T> {
        self.buf@
    }
}

impl<T, const N: usize> ConcurrentStaticVec<T, N> {
    /// The stack holds no more than its capacity.
    pub open spec fn wf(&self) -> bool {
        self@.len() <= N
    }

    /// An empty stack.
    pub fn new() -> (vec: Self)
        ensures
            vec.wf(),
            vec@ == Seq::<T>::empty(),
    {
        ConcurrentStaticVec { buf: Vec::new() }
    }

    /// Pushes `val` on top of the stack.
    pub fn push(&mut self, val: T)
        requires
            old(self).wf(),
            old(self)@.len() < N,
        ensures
            final(self).wf(),
            final(self)@ == old(self)@.push(val),
    {
        self.buf.push(val);
    }

    /// Takes the top of the stack; `None` when the stack is empty.
    pub fn pop(&mut self) -> (top: Option<T>)
        requires
            old(self).wf(),
        ensures
            final(self).wf(),
            old(self)@.len() == 0 ==> top is None && final(self)@ == old(self)@,
            old(self)@.len() > 0 ==> top == Some(old(self)@.last()) && final(self)@ == old(
                self,
            )@.drop_last(),
            old(self)@.no_duplicates() ==> final(self)@.no_duplicates(),
            old(self)@.no_duplicates() && top is Some ==> !final(self)@.contains(top->0),
    {
        proof {
            if self@.len() > 0 && self@.no_duplicates() {
                lemma_top_leaves(self@);
            }
        }
        self.buf.pop()
    }

    /// Number of values on the stack.
    pub fn len(&self) -> (n: usize)
        ensures
            n == self@.len(),
    {
        self.buf.len()
    }
}

impl<T: Copy, const N: usize> ConcurrentStaticVec<T, N> {
    /// A full stack that holds the values of `buf`, the last of them on top.
    pub fn new_from_const_array(buf: [T; N]) -> (vec: Self)
        ensures
            vec.wf(),
            vec@ == buf@,
    {
        let mut items: Vec<T> = Vec::new();
        let mut i: usize = 0;
        while i < N
            invariant
                i <= N,
                items@ == buf@.subrange(0, i as int),
            decreases N - i,
        {
            items.push(buf[i]);
            i += 1;
        }
        ConcurrentStaticVec { buf: items }
    }
}

impl<const N: usize> ConcurrentStaticVec<usize, N> {
    /// Whether `value` is on the stack.
    pub fn holds(&self, value: usize) -> (held: bool)
        ensures
            held == self@.contains(value),
    {
        let mut i: usize = 0;
        while i < self.buf.len()
            invariant
                i <= self@.len(),
                forall|k: int| 0 <= k < i ==> self@[k] != value,
            decreases self@.len() - i,
        {
            if self.buf[i] == value {
                return true;
            }
            i += 1;
        }
        false
    }
}

/// A value taken from a stack, to be given back to it with `release`.
pub struct DropPush<T> {
    value: T,
}

impl<T> View for DropPush<T> {
    type V = T;

    closed spec fn view(&self) -> T {
        self.value
    }
}

impl<T> DropPush<T> {
    /// Takes the top of `vec` and wraps it; `None` when `vec` is empty.
    pub fn pop<const N: usize>(vec: &mut ConcurrentStaticVec<T, N>) -> (taken: Option<Self>)
        requires
            old(vec).wf(),
        ensures
            final(vec).wf(),
            old(vec)@.len() == 0 ==> taken is None && final(vec)@ == old(vec)@,
            old(vec)@.len() > 0 ==> taken is Some && taken->0@ == old(vec)@.last() && final(vec)@
                == old(vec)@.drop_last(),
            old(vec)@.no_duplicates() ==> final(vec)@.no_duplicates(),
            old(vec)@.no_duplicates() && taken is Some ==> !final(vec)@.contains(taken->0@),
    {
        match vec.pop() {
            Some(value) => Some(DropPush { value }),
            None => None,
        }
    }

    /// The value that the handle holds.
    pub fn deref(&self) -> (value: &T)
        ensures
            *value == self@,
    {
        &self.value
    }

    /// Gives the value back: pushes it on top of `vec`.
    pub fn release<const N: usize>(self, vec: &mut ConcurrentStaticVec<T, N>)
        requires
            old(vec).wf(),
            old(vec)@.len() < N,
        ensures
            final(vec).wf(),
            final(vec)@ == old(vec)@.push(self@),
            old(vec)@.no_duplicates() && !old(vec)@.contains(self@) ==> final(vec)@.no_duplicates(),
    {
        proof {
            if vec@.no_duplicates() && !vec@.contains(self@) {
                lemma_push_fresh(vec@, self@);
            }
        }
        vec.push(self.value);
    }
}

/// The values in the order in which popping `s` until it is empty hands them
/// out: the top of the stack first.
pub open spec fn drained<T>(s: Seq<T>) -> Seq<T>
    decreases s.len(),
{
    if s.len() == 0 {
        Seq::empty()
    } else {
        seq![s.last()] + drained(s.drop_last())
    }
}

/// The stack `s` after the values of `items` were pushed on it, first to last.
pub open spec fn refilled<T>(s: Seq<T>, items: Seq<T>) -> Seq<T>
    decreases items.len(),
{
    if items.len() == 0 {
        s
    } else {
        refilled(s.push(items.first()), items.drop_first())
    }
}

/// Without duplicates, the top of a stack does not occur below it.
pub proof fn lemma_top_leaves<T>(s: Seq<T>)
    requires
        s.len() > 0,
        s.no_duplicates(),
    ensures
        s.drop_last().no_duplicates(),
        !s.drop_last().contains(s.last()),
{
    let rest = s.drop_last();
    assert forall|i: int, j: int| 0 <= i < rest.len() && 0 <= j < rest.len() && i != j implies rest[i]
        != rest[j] by {}
}

/// Pushing a value that the stack does not hold keeps it free of duplicates.
pub proof fn lemma_push_fresh<T>(s: Seq<T>, value: T)
    requires
        s.no_duplicates(),
        !s.contains(value),
    ensures
        s.push(value).no_duplicates(),
{
    let t = s.push(value);
    assert forall|i: int, j: int| 0 <= i < t.len() && 0 <= j < t.len() && i != j implies t[i]
        != t[j] by {}
}

/// Popping a stack until it is empty hands its values out in reverse.
pub proof fn lemma_drained_is_reverse<T>(s: Seq<T>)
    ensures
        drained(s) == s.reverse(),
    decreases s.len(),
{
    if s.len() > 0 {
        lemma_drained_is_reverse(s.drop_last());
    }
}

/// Pushing values one after the other appends them.
pub proof fn lemma_refilled_is_append<T>(s: Seq<T>, items: Seq<T>)
    ensures
        refilled(s, items) == s + items,
    decreases items.len(),
{
    if items.len() > 0 {
        lemma_refilled_is_append(s.push(items.first()), items.drop_first());
    }
}

/// Popping every value of a stack and pushing them back in the order in
/// which they came out gives a stack of the same size with the same values,
/// each as often as before: none is lost and none is doubled.
pub proof fn lemma_pop_all_push_back<T>(s: Seq<T>)
    ensures
        refilled(Seq::empty(), drained(s)).len() == s.len(),
        refilled(Seq::empty(), drained(s)).to_multiset() == s.to_multiset(),
        s.no_duplicates() ==> refilled(Seq::empty(), drained(s)).no_duplicates(),
        forall|v: T| s.contains(v) <==> refilled(Seq::empty(), drained(s)).contains(v),
{
    lemma_drained_is_reverse(s);
    lemma_refilled_is_append(Seq::empty(), s.reverse());
    let back = refilled(Seq::empty(), drained(s));
    s.lemma_reverse_to_multiset();
    if s.no_duplicates() {
        assert forall|i: int, j: int| 0 <= i < back.len() && 0 <= j < back.len() && i
            != j implies back[i] != back[j] by {}
    }
    assert forall|v: T| s.contains(v) <==> back.contains(v) by {
        if s.contains(v) {
            let i = choose|i: int| 0 <= i < s.len() && s[i] == v;
            assert(back[s.len() - 1 - i] == v);
        }
    }
}

/// Two pops from a stack without duplicates never hand out the same value:
/// the values that come out at different turns differ.
pub proof fn lemma_pops_are_distinct<T>(s: Seq<T>, i: int, j: int)
    requires
        s.no_duplicates(),
        0 <= i < s.len(),
        0 <= j < s.len(),
        i != j,
    ensures
        drained(s).len() == s.len(),
        drained(s)[i] != drained(s)[j],
{
    lemma_drained_is_reverse(s);
}

} // verus!
