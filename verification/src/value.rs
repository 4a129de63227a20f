//! The TENS value model: a closed tagged union over seven shapes.
//!
//! Floats are carried as their IEEE-754 bit patterns (`u64`), which is what
//! both codecs read; integers and floats stay distinct at the type level.
//! Objects are ordered lists of key/value pairs whose keys are unique.

use vstd::prelude::*;

verus! {

/// A JSON-like value.  The exec type that the codecs work on.
#[derive(Debug, PartialEq)]
pub enum Value {
    Null,
    Bool(bool),
    Int(i64),
    /// A double, stored as its IEEE-754 bit pattern.
    Float(u64),
    Str(String),
    Arr(Vec<Value>),
    /// An ordered map: key/value pairs, keys unique.
    Obj(Vec<(String, Value)>),
}

/// The mathematical model of a value: strings become character sequences,
/// vectors become sequences.
pub enum Val {
    Null,
    Bool(bool),
    Int(i64),
    Float(u64),
    Str(Seq<char>),
    Arr(Seq<Val>),
    Obj(Seq<(Seq<char>, Val)>),
}

/// The model of an exec value.
pub open spec fn val_of(v: Value) -> Val
    decreases v,
{
    match v {
        Value::Null => Val::Null,
        Value::Bool(b) => Val::Bool(b),
        Value::Int(i) => Val::Int(i),
        Value::Float(bits) => Val::Float(bits),
        Value::Str(s) => Val::Str(s@),
        Value::Arr(a) => Val::Arr(vals_of(a@)),
        Value::Obj(fs) => Val::Obj(pairs_of(fs@)),
    }
}

/// The models of a sequence of exec values.
pub open spec fn vals_of(a: Seq<Value>) -> Seq<Val>
    decreases a,
{
    if a.len() == 0 {
        Seq::empty()
    } else {
        seq![val_of(a[0])] + vals_of(a.drop_first())
    }
}

/// The models of a sequence of exec key/value pairs.
pub open spec fn pairs_of(fs: Seq<(String, Value)>) -> Seq<(Seq<char>, Val)>
    decreases fs,
{
    if fs.len() == 0 {
        Seq::empty()
    } else {
        seq![(fs[0].0@, val_of(fs[0].1))] + pairs_of(fs.drop_first())
    }
}

pub proof fn lemma_vals_of_index(a: Seq<Value>)
    ensures
        vals_of(a).len() == a.len(),
        forall|i: int| 0 <= i < a.len() ==> #[trigger] vals_of(a)[i] == val_of(a[i]),
    decreases a,
{
    if a.len() > 0 {
        lemma_vals_of_index(a.drop_first());
        assert forall|i: int| 0 <= i < a.len() implies vals_of(a)[i] == val_of(#[trigger] a[i]) by {
            if i > 0 {
                assert(a.drop_first()[i - 1] == a[i]);
            }
        }
    }
}

pub proof fn lemma_pairs_of_index(fs: Seq<(String, Value)>)
    ensures
        pairs_of(fs).len() == fs.len(),
        forall|i: int|
            0 <= i < fs.len() ==> #[trigger] pairs_of(fs)[i] == (fs[i].0@, val_of(fs[i].1)),
    decreases fs,
{
    if fs.len() > 0 {
        lemma_pairs_of_index(fs.drop_first());
        assert forall|i: int|
            0 <= i < fs.len() implies #[trigger] pairs_of(fs)[i] == (fs[i].0@, val_of(
            fs[i].1,
        )) by {
            if i > 0 {
                assert(fs.drop_first()[i - 1] == fs[i]);
            }
        }
    }
}

impl View for Value {
    type V = Val;

    open spec fn view(&self) -> Val {
        val_of(*self)
    }
}

/// Well-formedness: every object's keys are unique.  Duplicate keys are
/// collapsed upstream, before a value reaches the codecs.
pub open spec fn wf_val(v: Val) -> bool
    decreases v,
{
    match v {
        Val::Arr(es) => forall|i: int| 0 <= i < es.len() ==> wf_val(#[trigger] es[i]),
        Val::Obj(fs) => (forall|i: int, j: int|
            0 <= i < j < fs.len() ==> fs[i].0 != fs[j].0) && (forall|i: int|
            0 <= i < fs.len() ==> wf_val(#[trigger] fs[i].1)),
        _ => true,
    }
}

} // verus!
