use vstd::prelude::*;

verus! {

/// An entry of a queue that hands out its entries by ascending key.
pub trait Keyed {
    /// The key of this entry.
    spec fn spec_key(&self) -> int;

    fn key(&self) -> (k: i128)
        ensures
            k == self.spec_key(),
    ;
}

/// The position of the first of the entries with the least key.
pub open spec fn first_least<T: Keyed>(entries: Seq<T>) -> int
    decreases entries.len(),
{
    if entries.len() <= 1 {
        0
    } else {
        let i = first_least(entries.drop_last());
        if entries.last().spec_key() < entries[i].spec_key() {
            entries.len() - 1
        } else {
            i
        }
    }
}

/// The first of the entries with the least key has the least key, and none before
/// it has.
pub proof fn lemma_first_least<T: Keyed>(entries: Seq<T>)
    requires
        entries.len() > 0,
    ensures
        0 <= first_least(entries) < entries.len(),
        forall|j: int|
            0 <= j < entries.len() ==> entries[first_least(entries)].spec_key() <= (
            #[trigger] entries[j]).spec_key(),
        forall|j: int|
            0 <= j < first_least(entries) ==> entries[first_least(entries)].spec_key() < (
            #[trigger] entries[j]).spec_key(),
    decreases entries.len(),
{
    if entries.len() > 1 {
        lemma_first_least(entries.drop_last());
        let i = first_least(entries.drop_last());
        assert forall|j: int| 0 <= j < entries.len() - 1 implies entries[i].spec_key() <= (
        #[trigger] entries[j]).spec_key() by {
            assert(entries.drop_last()[j] == entries[j]);
        }
        assert forall|j: int| 0 <= j < i implies entries[i].spec_key() < (
        #[trigger] entries[j]).spec_key() by {
            assert(entries.drop_last()[j] == entries[j]);
        }
    }
}

/// A queue that hands out the entry with the least key first, and of entries with
/// the same key the one that came in first.
pub struct MinQueue<T> {
    entries: Vec<T>,
}

impl<T> View for MinQueue<T> {
    type V = Seq<T>;

    /// The entries in the order in which they came in.
    closed spec fn view(&self) -> Seq<T> {
        self.entries@
    }
}

impl<T: Keyed> MinQueue<T> {
    pub fn new() -> (q: Self)
        ensures
            q@ == Seq::<T>::empty(),
    {
        MinQueue { entries: Vec::new() }
    }

    pub fn len(&self) -> (n: usize)
        ensures
            n == self@.len(),
    {
        self.entries.len()
    }

    pub fn push(&mut self, entry: T)
        ensures
            final(self)@ == old(self)@.push(entry),
    {
        self.entries.push(entry);
    }

    /// Takes out the first of the entries with the least key.
    pub fn pop(&mut self) -> (r: Option<T>)
        ensures
            r is None <==> old(self)@.len() == 0,
            r is None ==> final(self)@ == old(self)@,
            r is Some ==> r->Some_0 == old(self)@[first_least(old(self)@)] && final(self)@ == old(
                self,
            )@.remove(first_least(old(self)@)),
    {
        if self.entries.len() == 0 {
            return None;
        }
        let mut best: usize = 0;
        let mut best_key = self.entries[0].key();
        let mut i: usize = 1;
        proof {
            assert(self.entries@.take(1).drop_last() =~= Seq::<T>::empty());
        }
        while i < self.entries.len()
            invariant
                1 <= i <= self.entries.len(),
                *self == *old(self),
                best == first_least(self.entries@.take(i as int)),
                best < i,
                best_key == self.entries[best as int].spec_key(),
            decreases self.entries.len() - i,
        {
            let k = self.entries[i].key();
            proof {
                assert(self.entries@.take(i + 1).drop_last() =~= self.entries@.take(i as int));
                assert(self.entries@.take(i + 1).last() == self.entries[i as int]);
                assert(self.entries@.take(i + 1)[best as int] == self.entries[best as int]);
            }
            if k < best_key {
                best = i;
                best_key = k;
            }
            i += 1;
        }
        proof {
            assert(self.entries@.take(self.entries.len() as int) =~= self.entries@);
        }
        Some(self.entries.remove(best))
    }
}

} // verus!
