//! The schema registry: deduplicates object key-sets into stable integer ids.
//!
//! Two key-sets that hold the same keys, in any order, resolve to the same
//! id.  Id `0` is reserved; ids are handed out sequentially from `1` in
//! first-registration order, and live for the registry's lifetime.

use vstd::prelude::*;
use crate::strutil::{chars_le, chars_eq_exec, str_chars};
use crate::value::Value;

verus! {

pub type SchemaId = u32;

/// A registered schema: its id, its keys in sorted order, and the type
/// labels carried alongside them.
pub struct Schema {
    pub id: SchemaId,
    /// Sorted field names (canonical order).
    pub keys: Vec<String>,
    /// Parallel array of inferred type labels.
    pub field_types: Vec<String>,
}

/// Key/label pairs as character sequences.
pub open spec fn kt_pairs(ks: Seq<String>, ts: Seq<String>) -> Seq<(Seq<char>, Seq<char>)> {
    Seq::new(
        if ks.len() <= ts.len() {
            ks.len()
        } else {
            ts.len()
        },
        |i: int| (ks[i]@, ts[i]@),
    )
}

/// Insert a key/label pair into a key-sorted run (stable).
pub open spec fn insert_kt(p: (Seq<char>, Seq<char>), s: Seq<(Seq<char>, Seq<char>)>) -> Seq<
    (Seq<char>, Seq<char>),
>
    decreases s.len(),
{
    if s.len() == 0 {
        seq![p]
    } else if chars_le(s[0].0, p.0) {
        seq![s[0]] + insert_kt(p, s.drop_first())
    } else {
        seq![p] + s
    }
}

/// Stable insertion sort of key/label pairs by key.
pub open spec fn sort_kt(s: Seq<(Seq<char>, Seq<char>)>) -> Seq<(Seq<char>, Seq<char>)>
    decreases s.len(),
{
    if s.len() == 0 {
        s
    } else {
        insert_kt(s.last(), sort_kt(s.drop_last()))
    }
}

/// The views of a vector of strings.
pub open spec fn str_views(ss: Seq<String>) -> Seq<Seq<char>> {
    Seq::new(ss.len(), |i: int| ss[i]@)
}

/// The keys of a run of key/label pairs.
pub open spec fn kt_keys(s: Seq<(Seq<char>, Seq<char>)>) -> Seq<Seq<char>> {
    Seq::new(s.len(), |i: int| s[i].0)
}

/// The labels of a run of key/label pairs.
pub open spec fn kt_types(s: Seq<(Seq<char>, Seq<char>)>) -> Seq<Seq<char>> {
    Seq::new(s.len(), |i: int| s[i].1)
}

/// The sorted keys of a schema, as character sequences.
pub open spec fn schema_keys(s: Schema) -> Seq<Seq<char>> {
    str_views(s.keys@)
}

/// Registry of schemas, looked up by their sorted key list.
pub struct SchemaRegistry {
    schemas: Vec<Schema>,
}

impl View for SchemaRegistry {
    type V = Seq<Schema>;

    closed spec fn view(&self) -> Seq<Schema> {
        self.schemas@
    }
}

impl SchemaRegistry {
    /// Ids are `1..=len`, in order; key lists are distinct.
    pub open spec fn wf(&self) -> bool {
        &&& forall|i: int| 0 <= i < self@.len() ==> (#[trigger] self@[i]).id == i + 1
        &&& forall|i: int, j: int|
            0 <= i < j < self@.len() ==> schema_keys(self@[i]) != schema_keys(self@[j])
    }

    pub fn new() -> (r: SchemaRegistry)
        ensures
            r@ == Seq::<Schema>::empty(),
            r.wf(),
    {
        SchemaRegistry { schemas: Vec::new() }
    }

    /// Register or retrieve a schema for the given (unsorted) keys, zipped
    /// with their type labels.  Returns the schema id and whether it is new.
    ///
    /// Key lists holding the same sorted keys always resolve to the same id.
    pub fn get_or_register(&mut self, keys: &[String], types: &[String]) -> (r: (SchemaId, bool))
        requires
            old(self).wf(),
            old(self)@.len() + 1 < 0x100000000,
        ensures
            final(self).wf(),
            ({
                let sk = kt_keys(sort_kt(kt_pairs(keys@, types@)));
                {
                    &&& (exists|i: int|
                        0 <= i < old(self)@.len() && schema_keys(old(self)@[i]) == sk) ==> {
                        &&& !r.1
                        &&& final(self)@ == old(self)@
                        &&& exists|i: int|
                            0 <= i < old(self)@.len() && schema_keys(#[trigger] old(self)@[i])
                                == sk && r.0 == i + 1
                    }
                    &&& !(exists|i: int|
                        0 <= i < old(self)@.len() && schema_keys(old(self)@[i]) == sk) ==> {
                        &&& r.1
                        &&& r.0 == old(self)@.len() + 1
                        &&& final(self)@.len() == old(self)@.len() + 1
                        &&& final(self)@.take(old(self)@.len() as int) == old(self)@
                        &&& schema_keys(final(self)@.last()) == sk
                        &&& str_views(final(self)@.last().field_types@) == kt_types(
                            sort_kt(kt_pairs(keys@, types@)),
                        )
                        &&& final(self)@.last().id == r.0
                    }
                }
            }),
    {
        let n = if keys.len() <= types.len() {
            keys.len()
        } else {
            types.len()
        };
        // sort the zipped pairs by key, stably
        let mut sorted_keys: Vec<String> = Vec::new();
        let mut sorted_types: Vec<String> = Vec::new();
        let mut i: usize = 0;
        while i < n
            invariant
                0 <= i <= n,
                n == if keys@.len() <= types@.len() {
                    keys@.len()
                } else {
                    types@.len()
                },
                sorted_keys@.len() == sorted_types@.len(),
                Seq::new(sorted_keys@.len(), |k: int| (sorted_keys@[k]@, sorted_types@[k]@))
                    =~~= sort_kt(kt_pairs(keys@, types@).take(i as int)),
                str_views(sorted_keys@) =~~= kt_keys(sort_kt(kt_pairs(keys@, types@).take(i as int))),
                str_views(sorted_types@) =~~= kt_types(sort_kt(kt_pairs(keys@, types@).take(i as int))),
            decreases n - i,
        {
            let ghost pre = Seq::new(
                sorted_keys@.len(),
                |k: int| (sorted_keys@[k]@, sorted_types@[k]@),
            );
            let kc = str_chars(keys[i].as_str());
            let mut pos: usize = 0;
            #[verifier::loop_isolation(true)]
            loop
                invariant_except_break
                    0 <= pos <= sorted_keys@.len(),
                    kc@ == keys@[i as int]@,
                    i < keys@.len(),
                    forall|k: int| 0 <= k < pos ==> chars_le((#[trigger] sorted_keys@[k])@, kc@),
                ensures
                    0 <= pos <= sorted_keys@.len(),
                    forall|k: int| 0 <= k < pos ==> chars_le((#[trigger] sorted_keys@[k])@, kc@),
                    pos < sorted_keys@.len() ==> !chars_le(sorted_keys@[pos as int]@, kc@),
                decreases sorted_keys@.len() - pos,
            {
                if pos >= sorted_keys.len() {
                    break;
                }
                let skc = str_chars(sorted_keys[pos].as_str());
                if !crate::strutil::chars_le_exec(&skc, &kc) {
                    break;
                }
                pos = pos + 1;
            }
            sorted_keys.insert(pos, keys[i].clone());
            sorted_types.insert(pos, types[i].clone());
            proof {
                let p = (keys@[i as int]@, types@[i as int]@);
                lemma_insert_kt_at(p, pre, pos as int);
                assert(kt_pairs(keys@, types@).take(i as int + 1).drop_last() =~= kt_pairs(
                    keys@,
                    types@,
                ).take(i as int));
                assert(kt_pairs(keys@, types@).take(i as int + 1).last() == p);
                assert(sort_kt(kt_pairs(keys@, types@).take(i as int + 1)) == insert_kt(
                    p,
                    sort_kt(kt_pairs(keys@, types@).take(i as int)),
                ));
                assert(Seq::new(sorted_keys@.len(), |k: int| (sorted_keys@[k]@, sorted_types@[k]@))
                    =~~= pre.take(pos as int) + seq![p] + pre.skip(pos as int));
                assert(Seq::new(sorted_keys@.len(), |k: int| (sorted_keys@[k]@, sorted_types@[k]@))
                    =~~= sort_kt(kt_pairs(keys@, types@).take(i as int + 1)));
                assert(str_views(sorted_keys@) =~~= kt_keys(
                    sort_kt(kt_pairs(keys@, types@).take(i as int + 1)),
                ));
                assert(str_views(sorted_types@) =~~= kt_types(
                    sort_kt(kt_pairs(keys@, types@).take(i as int + 1)),
                ));
            }
            i = i + 1;
        }
        proof {
            assert(kt_pairs(keys@, types@).take(n as int) =~= kt_pairs(keys@, types@));
        }
        let ghost sk = kt_keys(sort_kt(kt_pairs(keys@, types@)));
        proof {
            assert(str_views(sorted_keys@) == sk);
        }
        // look the sorted key list up
        let mut j: usize = 0;
        while j < self.schemas.len()
            invariant
                0 <= j <= self@.len(),
                *self == *old(self),
                old(self).wf(),
                old(self)@.len() + 1 < 0x100000000,
                str_views(sorted_keys@) == sk,
                sk == kt_keys(sort_kt(kt_pairs(keys@, types@))),
                sorted_keys@.len() == sorted_types@.len(),
                str_views(sorted_types@) == kt_types(sort_kt(kt_pairs(keys@, types@))),
                forall|k: int| 0 <= k < j ==> schema_keys(#[trigger] old(self)@[k]) != sk,
            decreases self@.len() - j,
        {
            let cand = &self.schemas[j];
            if Self::keys_match(&cand.keys, &sorted_keys) {
                proof {
                    assert(schema_keys(old(self)@[j as int]) =~~= sk);
                    assert(old(self)@[j as int].id == j + 1);
                    assert(exists|i: int|
                        0 <= i < old(self)@.len() && schema_keys(#[trigger] old(self)@[i]) == sk
                            && cand.id == i + 1);
                }
                return (cand.id, false);
            }
            j = j + 1;
        }
        let id: SchemaId = (self.schemas.len() as u32) + 1;
        let schema = Schema { id, keys: sorted_keys, field_types: sorted_types };
        self.schemas.push(schema);
        proof {
            assert(final(self)@.take(old(self)@.len() as int) =~= old(self)@);
            assert(schema_keys(final(self)@.last()) =~~= sk);
            assert forall|a: int, b: int|
                0 <= a < b < final(self)@.len() implies schema_keys(final(self)@[a])
                != schema_keys(final(self)@[b]) by {
                if b == final(self)@.len() - 1 {
                    assert(schema_keys(old(self)@[a]) != sk);
                }
            }
        }
        (id, true)
    }

    /// Whether two key vectors hold the same strings in the same order.
    fn keys_match(a: &Vec<String>, b: &Vec<String>) -> (r: bool)
        ensures
            r == (str_views(a@) == str_views(b@)),
    {
        let ghost av = str_views(a@);
        let ghost bv = str_views(b@);
        if a.len() != b.len() {
            proof {
                assert(av.len() != bv.len());
            }
            return false;
        }
        let mut i: usize = 0;
        while i < a.len()
            invariant
                0 <= i <= a@.len(),
                a@.len() == b@.len(),
                forall|k: int| 0 <= k < i ==> a@[k]@ == b@[k]@,
            decreases a@.len() - i,
        {
            let ac = str_chars(a[i].as_str());
            let bc = str_chars(b[i].as_str());
            if !chars_eq_exec(&ac, &bc) {
                proof {
                    assert(str_views(a@)[i as int] != str_views(b@)[i as int]);
                }
                return false;
            }
            i = i + 1;
        }
        proof {
            assert(str_views(a@) =~~= str_views(b@));
        }
        true
    }

    /// Look a schema up by id.
    pub fn get(&self, id: SchemaId) -> (r: Option<&Schema>)
        requires
            self.wf(),
        ensures
            1 <= id <= self@.len() ==> r == Some(&self@[id - 1]),
            !(1 <= id <= self@.len()) ==> r is None,
    {
        if id >= 1 && (id as usize) <= self.schemas.len() {
            Some(&self.schemas[(id as usize) - 1])
        } else {
            None
        }
    }

    /// All registered schemas, in id order.
    pub fn all(&self) -> (r: &Vec<Schema>)
        ensures
            r@ == self@,
    {
        &self.schemas
    }
}

/// Where the scan stopped is where `insert_kt` puts the new pair.
pub proof fn lemma_insert_kt_at(p: (Seq<char>, Seq<char>), s: Seq<(Seq<char>, Seq<char>)>, pos: int)
    requires
        0 <= pos <= s.len(),
        forall|k: int| 0 <= k < pos ==> chars_le((#[trigger] s[k]).0, p.0),
        pos < s.len() ==> !chars_le(s[pos].0, p.0),
    ensures
        insert_kt(p, s) =~= s.take(pos) + seq![p] + s.skip(pos),
    decreases pos,
{
    if pos == 0 {
        if s.len() > 0 {
            assert(insert_kt(p, s) == seq![p] + s);
        }
        assert(insert_kt(p, s) =~= s.take(0) + seq![p] + s.skip(0));
    } else {
        assert(chars_le(s[0].0, p.0));
        lemma_insert_kt_at(p, s.drop_first(), pos - 1);
        assert(s.drop_first().take(pos - 1) =~= s.take(pos).drop_first());
        assert(s.drop_first().skip(pos - 1) =~= s.skip(pos));
        assert(insert_kt(p, s) =~= s.take(pos) + seq![p] + s.skip(pos));
    }
}

} // verus!
