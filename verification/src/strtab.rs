//! The string table: an insertion-ordered interner of distinct strings.
//! Ids are assigned in first-seen order and are stable within one table.

use vstd::prelude::*;

verus! {

/// Adding to a table: no change if the string is present, else append.
pub open spec fn tbl_add(t: Seq<Seq<char>>, s: Seq<char>) -> Seq<Seq<char>> {
    if t.contains(s) {
        t
    } else {
        t.push(s)
    }
}

/// The first index holding `s`, or `-1`.
pub open spec fn tbl_find(t: Seq<Seq<char>>, s: Seq<char>) -> int
    decreases t.len(),
{
    if t.len() == 0 {
        -1
    } else if t[0] == s {
        0
    } else {
        let r = tbl_find(t.drop_first(), s);
        if r < 0 {
            -1
        } else {
            1 + r
        }
    }
}

/// The id `tbl_add` hands out for `s`.
pub open spec fn tbl_id(t: Seq<Seq<char>>, s: Seq<char>) -> int {
    if t.contains(s) {
        tbl_find(t, s)
    } else {
        t.len() as int
    }
}

pub proof fn lemma_tbl_find(t: Seq<Seq<char>>, s: Seq<char>)
    ensures
        tbl_find(t, s) < 0 <==> !t.contains(s),
        t.contains(s) ==> 0 <= tbl_find(t, s) < t.len() && t[tbl_find(t, s)] == s,
        t.contains(s) ==> forall|k: int| 0 <= k < tbl_find(t, s) ==> t[k] != s,
    decreases t.len(),
{
    if t.len() > 0 && t[0] != s {
        lemma_tbl_find(t.drop_first(), s);
        assert(t.contains(s) ==> t.drop_first().contains(s)) by {
            if t.contains(s) {
                let i = choose|i: int| 0 <= i < t.len() && t[i] == s;
                assert(t.drop_first()[i - 1] == s);
            }
        }
        if t.drop_first().contains(s) {
            let j = tbl_find(t.drop_first(), s);
            assert(t[j + 1] == t.drop_first()[j]);
            assert forall|k: int| 0 <= k < tbl_find(t, s) implies t[k] != s by {
                if k > 0 {
                    assert(t[k] == t.drop_first()[k - 1]);
                }
            }
        }
    }
}

/// Insertion-ordered string table with a distinctness invariant.
pub struct StringTable {
    entries: Vec<String>,
}

impl View for StringTable {
    type V = Seq<Seq<char>>;

    closed spec fn view(&self) -> Seq<Seq<char>> {
        Seq::new(self.entries@.len(), |i: int| self.entries@[i]@)
    }
}

impl StringTable {
    /// The table's entries are pairwise distinct.
    pub open spec fn wf(&self) -> bool {
        forall|i: int, j: int| 0 <= i < j < self@.len() ==> self@[i] != self@[j]
    }

    pub fn new() -> (r: StringTable)
        ensures
            r@ == Seq::<Seq<char>>::empty(),
            r.wf(),
    {
        let r = StringTable { entries: Vec::new() };
        proof {
            assert(r@ =~= Seq::<Seq<char>>::empty());
        }
        r
    }

    /// Add a string and return its id; a string already present keeps its id.
    pub fn add(&mut self, s: &str) -> (id: u32)
        requires
            old(self).wf(),
            old(self)@.len() < 0x100000000,
        ensures
            final(self).wf(),
            final(self)@ == tbl_add(old(self)@, s@),
            id as int == tbl_id(old(self)@, s@),
    {
        proof {
            lemma_tbl_find(old(self)@, s@);
        }
        let owned: String = s.to_owned();
        let n = self.entries.len();
        let mut i: usize = 0;
        while i < n
            invariant
                n == self.entries@.len(),
                0 <= i <= n,
                owned@ == s@,
                old(self).wf(),
                old(self)@.len() < 0x100000000,
                forall|k: int| 0 <= k < i ==> #[trigger] old(self)@[k] != s@,
                *self == *old(self),
            decreases n - i,
        {
            if self.entries[i] == owned {
                proof {
                    lemma_tbl_find(old(self)@, s@);
                    assert(self@[i as int] == self.entries@[i as int]@);
                    assert(old(self)@[i as int] == s@);
                    assert(old(self)@.contains(s@));
                    assert(tbl_add(old(self)@, s@) == old(self)@);
                    let f = tbl_find(old(self)@, s@);
                    assert(0 <= f < old(self)@.len());
                    assert(old(self)@[f] == s@);
                    assert(f == i as int) by {
                        if f < i as int {
                            assert(old(self)@[f] != s@);
                            assert(false);
                        }
                        if f > i as int {
                            assert(forall|k: int|
                                0 <= k < f ==> #[trigger] old(self)@[k] != s@);
                            assert(old(self)@[i as int] != s@);
                            assert(false);
                        }
                    }
                }
                return i as u32;
            }
            proof {
                assert(self@[i as int] == self.entries@[i as int]@);
            }
            i = i + 1;
        }
        proof {
            assert(!old(self)@.contains(s@)) by {
                if old(self)@.contains(s@) {
                    let k = choose|k: int| 0 <= k < old(self)@.len() && old(self)@[k] == s@;
                }
            }
        }
        let id = self.entries.len() as u32;
        self.entries.push(owned);
        proof {
            assert(self@ =~= tbl_add(old(self)@, s@));
        }
        id
    }

    /// The interned strings, in insertion order.
    pub fn entries(&self) -> (r: &[String])
        ensures
            r@.len() == self@.len(),
            forall|i: int| 0 <= i < r@.len() ==> r@[i]@ == self@[i],
    {
        self.entries.as_slice()
    }

    pub fn len(&self) -> (r: usize)
        ensures
            r == self@.len(),
    {
        self.entries.len()
    }
}

} // verus!
