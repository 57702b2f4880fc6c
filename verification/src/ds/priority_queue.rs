use vstd::prelude::*;
use vstd::multiset::Multiset;

verus! {

/// Lexicographic order on `(key, id)` entries.
pub open spec fn entry_le(a: (u128, usize), b: (u128, usize)) -> bool {
    a.0 < b.0 || (a.0 == b.0 && a.1 <= b.1)
}

/// A min-priority queue of `(key, id)` entries; the smallest entry in
/// lexicographic order leaves first.
pub struct MinQueue {
    items: Vec<(u128, usize)>,
}

impl View for MinQueue {
    type V = Multiset<(u128, usize)>;

    closed spec fn view(&self) -> Multiset<(u128, usize)> {
        self.items@.to_multiset()
    }
}

impl MinQueue {
    /// The entries in storage order; their multiset is the view.
    pub closed spec fn entries(&self) -> Seq<(u128, usize)> {
        self.items@
    }

    pub proof fn lemma_entries_view(&self)
        ensures
            self@ == self.entries().to_multiset(),
            self@.len() == self.entries().len(),
    {
        self.items@.to_multiset_ensures();
    }

    pub fn new() -> (q: MinQueue)
        ensures
            q@ =~= Multiset::empty(),
            q.entries() == Seq::<(u128, usize)>::empty(),
    {
        let q = MinQueue { items: Vec::new() };
        proof {
            q.items@.to_multiset_ensures();
            vstd::multiset::lemma_multiset_empty_len(q.items@.to_multiset());
        }
        q
    }

    pub fn len(&self) -> (n: usize)
        ensures
            n == self@.len(),
    {
        proof {
            self.items@.to_multiset_ensures();
        }
        self.items.len()
    }

    pub fn push(&mut self, key: u128, id: usize)
        ensures
            final(self)@ =~= old(self)@.insert((key, id)),
            final(self).entries() == old(self).entries().push((key, id)),
    {
        proof {
            self.items@.to_multiset_ensures();
        }
        self.items.push((key, id));
    }

    /// Removes and returns the smallest entry, or `None` when the queue is empty.
    pub fn pop(&mut self) -> (r: Option<(u128, usize)>)
        ensures
            old(self)@.len() == 0 ==> r is None && final(self)@ =~= old(self)@,
            r is None ==> final(self).entries() == old(self).entries(),
            r matches Some(x) ==> exists|i: int|
                0 <= i < old(self).entries().len() && old(self).entries()[i] == x && final(self).entries()
                    == old(self).entries().remove(i),
            old(self)@.len() > 0 ==> (r matches Some(x) && {
                &&& old(self)@.count(x) > 0
                &&& forall|y: (u128, usize)| #[trigger] old(self)@.count(y) > 0 ==> entry_le(x, y)
                &&& final(self)@ =~= old(self)@.remove(x)
                &&& final(self)@.len() + 1 == old(self)@.len()
            }),
    {
        proof {
            self.items@.to_multiset_ensures();
        }
        if self.items.len() == 0 {
            return None;
        }
        let mut best: usize = 0;
        let mut i: usize = 1;
        while i < self.items.len()
            invariant
                0 <= best < i <= self.items.len(),
                self.items@ == old(self).items@,
                forall|j: int| 0 <= j < i ==> entry_le(self.items@[best as int], #[trigger] self.items@[j]),
            decreases self.items.len() - i,
        {
            let a = self.items[i];
            let b = self.items[best];
            if a.0 < b.0 || (a.0 == b.0 && a.1 < b.1) {
                best = i;
            }
            i = i + 1;
        }
        let ghost s = self.items@;
        let x = self.items.remove(best);
        proof {
            s.to_multiset_ensures();
            self.items@.to_multiset_ensures();
            assert forall|y: (u128, usize)| #[trigger] s.to_multiset().count(y) > 0 implies entry_le(x, y) by {
                assert(s.contains(y));
                let j = choose|j: int| 0 <= j < s.len() && s[j] == y;
            }
            assert(s[best as int] == x);
            assert(old(self).entries()[best as int] == x && self.entries() == old(self).entries().remove(best as int));
        }
        Some(x)
    }
}

} // verus!
