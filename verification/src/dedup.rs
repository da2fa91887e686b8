//! Registry of file identities that have already been emitted. One registry
//! is shared by a whole logical operation; inserting an identity a second
//! time reports it as seen, and a new operation clears the registry so that
//! everything may be emitted again.

use vstd::prelude::*;
use crate::text::str_eq;

verus! {

pub struct DedupRegistry {
    entries: Vec<String>,
}

impl View for DedupRegistry {
    type V = Set<Seq<char>>;

    /// The set of identities the registry holds.
    closed spec fn view(&self) -> Set<Seq<char>> {
        self.entries.deep_view().to_set()
    }
}

impl DedupRegistry {
    pub fn new() -> (r: DedupRegistry)
        ensures
            r@ == Set::<Seq<char>>::empty(),
    {
        let r = DedupRegistry { entries: Vec::new() };
        proof {
            assert(r@ =~= Set::<Seq<char>>::empty());
        }
        r
    }

    pub fn contains_id(&self, id: &str) -> (r: bool)
        ensures
            r == self@.contains(id@),
    {
        let mut i: usize = 0;
        while i < self.entries.len()
            invariant
                i <= self.entries@.len(),
                forall|j: int| 0 <= j < i ==> self.entries.deep_view()[j] != id@,
            decreases self.entries@.len() - i,
        {
            if str_eq(self.entries[i].as_str(), id) {
                proof {
                    assert(self.entries.deep_view()[i as int] == id@);
                    assert(self.entries.deep_view().contains(id@));
                }
                return true;
            }
            i += 1;
        }
        proof {
            assert(!self.entries.deep_view().contains(id@));
        }
        false
    }

    /// Record `id` as emitted; reports whether it was newly inserted.
    pub fn insert_if_absent(&mut self, id: &str) -> (r: bool)
        ensures
            r == !old(self)@.contains(id@),
            final(self)@ == old(self)@.insert(id@),
    {
        if self.contains_id(id) {
            proof {
                assert(self@ =~= self@.insert(id@));
            }
            false
        } else {
            let owned = crate::text::from_chars(&crate::text::to_chars(id));
            self.entries.push(owned);
            proof {
                let dv = self.entries.deep_view();
                let old_dv = old(self).entries.deep_view();
                assert(dv.len() == old_dv.len() + 1);
                assert(dv[old_dv.len() as int] == id@);
                assert(forall|j: int| 0 <= j < old_dv.len() ==> dv[j] == old_dv[j]);
                assert forall|x: Seq<char>| dv.to_set().contains(x) implies old_dv.to_set().insert(
                    id@,
                ).contains(x) by {
                    let j = choose|j: int| 0 <= j < dv.len() && dv[j] == x;
                    if j < old_dv.len() {
                        assert(old_dv.contains(x));
                    }
                }
                assert forall|x: Seq<char>|
                    old_dv.to_set().insert(id@).contains(x) implies dv.to_set().contains(x) by {
                    if x == id@ {
                        assert(dv[old_dv.len() as int] == x);
                        assert(dv.contains(x));
                    } else {
                        let j = choose|j: int| 0 <= j < old_dv.len() && old_dv[j] == x;
                        assert(dv[j] == x);
                        assert(dv.contains(x));
                    }
                }
                assert(self@ =~= old(self)@.insert(id@));
            }
            true
        }
    }

    /// Forget everything; a fresh logical operation starts here.
    pub fn clear(&mut self)
        ensures
            final(self)@ == Set::<Seq<char>>::empty(),
    {
        self.entries = Vec::new();
        proof {
            assert(self@ =~= Set::<Seq<char>>::empty());
        }
    }
}

} // verus!
