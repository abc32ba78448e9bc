//! A queue for graph searches, on which each entry is queued only once.
use vstd::prelude::*;

verus! {

/// A queue for graph searches; entries only get added once.
///
/// Every entry ever added is kept in order; the entries not yet taken
/// are those from `head` on.
pub struct SearchQueue<T> {
    seen: Vec<T>,
    head: usize,
}

impl SearchQueue<String> {
    /// Every entry added so far, in order of addition.
    pub closed spec fn seen(&self) -> Seq<Seq<char>> {
        self.seen@.map_values(|s: String| s@)
    }

    /// How many entries have been taken off the queue.
    pub closed spec fn taken(&self) -> nat {
        self.head as nat
    }

    /// The entries are distinct and no more were taken than were added.
    pub closed spec fn wf(&self) -> bool {
        &&& self.head <= self.seen@.len()
        &&& self.seen().no_duplicates()
    }

    /// A well-formed queue holds each entry once.
    pub proof fn lemma_distinct(&self)
        requires
            self.wf(),
        ensures
            self.seen().no_duplicates(),
            self.taken() <= self.seen().len(),
    {
    }

    /// An empty queue.
    pub fn new() -> (q: SearchQueue<String>)
        ensures
            q.wf(),
            q.seen() == Seq::<Seq<char>>::empty(),
            q.taken() == 0,
    {
        let q = SearchQueue { seen: Vec::new(), head: 0 };
        assert(q.seen() =~= Seq::<Seq<char>>::empty());
        q
    }

    /// Queue `item` unless it was added before; says whether it was queued.
    pub fn maybe_add(&mut self, item: &str) -> (added: bool)
        requires
            old(self).wf(),
        ensures
            final(self).wf(),
            added == !old(self).seen().contains(item@),
            added ==> final(self).seen() == old(self).seen().push(item@),
            !added ==> final(self).seen() == old(self).seen(),
            final(self).taken() == old(self).taken(),
    {
        let owned = item.to_owned();
        if self.holds(&owned) {
            return false;
        }
        let ghost before = self.seen();
        assert(!before.contains(item@));
        self.seen.push(owned);
        assert(self.seen() =~= before.push(item@));
        true
    }

    /// Take the oldest entry not yet taken.
    pub fn get(&mut self) -> (r: Option<String>)
        requires
            old(self).wf(),
        ensures
            final(self).wf(),
            final(self).seen() == old(self).seen(),
            old(self).taken() < old(self).seen().len() ==> r is Some && r->0@ == old(self).seen()[old(
                self,
            ).taken() as int] && final(self).taken() == old(self).taken() + 1,
            old(self).taken() == old(self).seen().len() ==> r is None && final(self).taken()
                == old(self).taken(),
    {
        if self.head < self.seen.len() {
            let item = self.seen[self.head].clone();
            self.head = self.head + 1;
            Some(item)
        } else {
            None
        }
    }

    /// The number of entries waiting on the queue.
    pub fn len(&self) -> (n: usize)
        requires
            self.wf(),
        ensures
            n == self.seen().len() - self.taken(),
    {
        self.seen.len() - self.head
    }

    /// Whether `item` was ever added.
    pub fn saw(&self, item: &str) -> (r: bool)
        ensures
            r == self.seen().contains(item@),
    {
        let owned = item.to_owned();
        self.holds(&owned)
    }

    fn holds(&self, item: &String) -> (r: bool)
        ensures
            r == self.seen().contains(item@),
    {
        let n = self.seen.len();
        let mut i: usize = 0;
        while i < n
            invariant
                n == self.seen@.len(),
                i <= n,
                forall|k: int| 0 <= k < i ==> self.seen()[k] != item@,
            decreases n - i,
        {
            if self.seen[i] == *item {
                assert(self.seen()[i as int] == item@);
                return true;
            }
            i += 1;
        }
        false
    }
}

} // verus!
