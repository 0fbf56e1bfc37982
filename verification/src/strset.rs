//! A set of strings that remembers insertion order.
//!
//! Membership is by character content; a string already present is not
//! added again, so every member occurs exactly once.

use vstd::prelude::*;

verus! {

/// No string occurs twice in the sequence.
pub open spec fn distinct_strs(s: Seq<Seq<char>>) -> bool {
    forall|i: int, j: int| 0 <= i < j < s.len() ==> s[i] != s[j]
}

/// Append the string unless it is already a member.
pub open spec fn set_push(s: Seq<Seq<char>>, x: Seq<char>) -> Seq<Seq<char>> {
    if s.contains(x) {
        s
    } else {
        s.push(x)
    }
}

/// Adding a member keeps the members distinct.
pub proof fn lemma_set_push_distinct(s: Seq<Seq<char>>, x: Seq<char>)
    requires
        distinct_strs(s),
    ensures
        distinct_strs(set_push(s, x)),
{
    if !s.contains(x) {
        assert forall|i: int, j: int|
            0 <= i < j < s.push(x).len() implies s.push(x)[i] != s.push(x)[j] by {
            if j == s.len() {
                assert(s.push(x)[i] == s[i]);
                assert(!s.contains(x));
            }
        }
    }
}

/// The sequence with every occurrence of `x` dropped, order kept.
pub open spec fn seq_without(s: Seq<Seq<char>>, x: Seq<char>) -> Seq<Seq<char>>
    decreases s.len(),
{
    if s.len() == 0 {
        s
    } else {
        let rest = seq_without(s.drop_last(), x);
        if s.last() == x {
            rest
        } else {
            rest.push(s.last())
        }
    }
}

/// What is dropped is gone: `x` is no member of the result.
pub proof fn lemma_seq_without_not_contains(s: Seq<Seq<char>>, x: Seq<char>)
    ensures
        !seq_without(s, x).contains(x),
    decreases s.len(),
{
    if s.len() > 0 {
        lemma_seq_without_not_contains(s.drop_last(), x);
        let rest = seq_without(s.drop_last(), x);
        if s.last() != x {
            assert forall|i: int| 0 <= i < rest.push(s.last()).len() implies rest.push(
                s.last(),
            )[i] != x by {
                if i < rest.len() {
                    assert(rest.push(s.last())[i] == rest[i]);
                    assert(!rest.contains(x));
                }
            }
        }
    }
}

/// Dropping occurrences cannot lengthen the sequence.
pub proof fn lemma_seq_without_len(s: Seq<Seq<char>>, x: Seq<char>)
    ensures
        seq_without(s, x).len() <= s.len(),
    decreases s.len(),
{
    if s.len() > 0 {
        lemma_seq_without_len(s.drop_last(), x);
    }
}

/// A set of strings in insertion order, each member held once.
pub struct StrSet {
    items: Vec<String>,
}

impl StrSet {
    /// The members, in insertion order.
    pub closed spec fn model(&self) -> Seq<Seq<char>> {
        self.items@.map(|i: int, s: String| s@)
    }

    /// No member occurs twice.
    pub open spec fn wf(&self) -> bool {
        distinct_strs(self.model())
    }

    pub fn new() -> (r: Self)
        ensures
            r.model() == Seq::<Seq<char>>::empty(),
            r.wf(),
    {
        let r = StrSet { items: Vec::new() };
        proof {
            assert(r.model() =~= Seq::<Seq<char>>::empty());
        }
        r
    }

    /// Build a set holding one string.
    pub fn singleton(x: String) -> (r: Self)
        ensures
            r.model() == seq![x@],
            r.wf(),
    {
        let mut items: Vec<String> = Vec::new();
        items.push(x);
        let r = StrSet { items };
        proof {
            assert(r.model() =~= seq![r.items@[0]@]);
        }
        r
    }

    pub fn len(&self) -> (n: usize)
        ensures
            n == self.model().len(),
    {
        self.items.len()
    }

    pub fn contains(&self, x: &String) -> (r: bool)
        ensures
            r == self.model().contains(x@),
    {
        let mut i: usize = 0;
        while i < self.items.len()
            invariant
                i <= self.items.len(),
                forall|j: int| 0 <= j < i ==> self.model()[j] != x@,
            decreases self.items.len() - i,
        {
            let it = &self.items[i];
            if *it == *x {
                proof {
                    assert(self.model()[i as int] == x@);
                }
                return true;
            }
            assert(self.model()[i as int] != x@);
            i += 1;
        }
        false
    }

    /// Add a member; a string already present is left alone.
    pub fn insert(&mut self, x: String)
        requires
            old(self).wf(),
        ensures
            final(self).model() == set_push(old(self).model(), x@),
            final(self).wf(),
    {
        let ghost m = old(self).model();
        if !self.contains(&x) {
            self.items.push(x);
            proof {
                assert(self.model() =~= m.push(x@));
            }
        }
    }

    /// The member at a position, in insertion order.
    pub fn item_at(&self, i: usize) -> (x: &String)
        requires
            i < self.model().len(),
        ensures
            x@ == self.model()[i as int],
    {
        &self.items[i]
    }

    /// The members other than `subject`, in insertion order.
    pub fn others_than(&self, subject: &String) -> (r: Vec<String>)
        ensures
            r@.map(|i: int, s: String| s@) == seq_without(self.model(), subject@),
    {
        let mut r: Vec<String> = Vec::new();
        let mut i: usize = 0;
        while i < self.items.len()
            invariant
                i <= self.items.len(),
                r@.map(|j: int, s: String| s@) == seq_without(
                    self.model().take(i as int),
                    subject@,
                ),
            decreases self.items.len() - i,
        {
            let ghost prev = r@.map(|j: int, s: String| s@);
            let it = &self.items[i];
            proof {
                assert(it@ == self.model()[i as int]);
                assert(self.model().take(i as int + 1).drop_last() =~= self.model().take(
                    i as int,
                ));
                assert(self.model().take(i as int + 1).last() == self.model()[i as int]);
            }
            if !(*it == *subject) {
                r.push(it.clone());
                proof {
                    assert(r@.map(|j: int, s: String| s@) =~= prev.push(it@));
                }
            }
            i += 1;
        }
        proof {
            assert(self.model().take(self.items@.len() as int) =~= self.model());
        }
        r
    }
}

} // verus!
