//! Canonicalization: the deterministic normal form every value takes before
//! it is encoded.
//!
//! Strings are NFKC-normalized and each line loses its trailing whitespace;
//! NaN and the infinities become null, negative zero becomes integer zero;
//! object keys are sorted; arrays keep their order.

use vstd::prelude::*;
use unicode_normalization::UnicodeNormalization;
use crate::floatbits::{f_special, f_neg_zero, float_special, float_neg_zero};
use crate::strutil::{chars_lt, chars_le, is_ws, is_ws_exec, str_chars, chars_string};
use crate::value::{Value, Val, val_of};

verus! {

/// What unicode-normalization's NFKC iterator yields for these characters:
/// a function of the characters alone.
pub uninterp spec fn nfkc_of(s: Seq<char>) -> Seq<char>;

/// Relies on unicode-normalization's `UnicodeNormalization::nfkc`:
/// Unicode NFKC normalization, a pure function of the input characters.
#[verifier::external_body]
fn nfkc(s: &str) -> (r: String)
    ensures
        r@ == nfkc_of(s@),
{
    s.nfkc().collect()
}

/// Split on `'\n'`, keeping every piece (so a trailing `'\n'` yields a final
/// empty piece).
pub open spec fn split_nl(s: Seq<char>) -> Seq<Seq<char>>
    decreases s.len(),
{
    if s.len() == 0 {
        seq![Seq::<char>::empty()]
    } else if s[0] == '\n' {
        seq![Seq::<char>::empty()] + split_nl(s.drop_first())
    } else {
        let r = split_nl(s.drop_first());
        seq![seq![s[0]] + r[0]] + r.drop_first()
    }
}

pub proof fn lemma_split_nl_len(s: Seq<char>)
    ensures
        split_nl(s).len() >= 1,
    decreases s.len(),
{
    if s.len() > 0 {
        lemma_split_nl_len(s.drop_first());
    }
}

/// How one more character extends the split: a newline opens a new empty
/// piece, any other character extends the last piece.
pub proof fn lemma_split_nl_snoc(t: Seq<char>, c: char)
    ensures
        c == '\n' ==> split_nl(t.push(c)) =~~= split_nl(t).push(Seq::<char>::empty()),
        c != '\n' ==> split_nl(t.push(c)) =~~= split_nl(t).drop_last().push(
            split_nl(t).last().push(c),
        ),
    decreases t.len(),
{
    lemma_split_nl_len(t);
    if t.len() == 0 {
        let u = t.push(c);
        assert(u.len() == 1 && u[0] == c);
        assert(u.drop_first() =~= Seq::<char>::empty());
        assert(split_nl(Seq::<char>::empty()) == seq![Seq::<char>::empty()]);
        assert(split_nl(t) == seq![Seq::<char>::empty()]) by {
            assert(t =~= Seq::<char>::empty());
        }
        assert(split_nl(u.drop_first()) == seq![Seq::<char>::empty()]);
        if c == '\n' {
            assert(split_nl(u) == seq![Seq::<char>::empty()] + split_nl(u.drop_first()));
            assert(split_nl(u) =~~= split_nl(t).push(Seq::<char>::empty()));
        } else {
            assert(split_nl(u) == seq![seq![u[0]] + split_nl(u.drop_first())[0]] + split_nl(
                u.drop_first(),
            ).drop_first());
            assert(seq![u[0]] + split_nl(u.drop_first())[0] =~= seq![c]);
            assert(split_nl(t).last().push(c) =~= seq![c]);
            assert(split_nl(u) =~~= split_nl(t).drop_last().push(split_nl(t).last().push(c)));
        }
    } else {
        let u = t.push(c);
        assert(u[0] == t[0]);
        assert(u.drop_first() =~= t.drop_first().push(c));
        lemma_split_nl_snoc(t.drop_first(), c);
        lemma_split_nl_len(t.drop_first());
        let rt = split_nl(t.drop_first());
        let ru = split_nl(t.drop_first().push(c));
        if t[0] == '\n' {
            assert(split_nl(t) =~~= seq![Seq::<char>::empty()] + rt);
            assert(split_nl(u) =~~= seq![Seq::<char>::empty()] + ru);
            if c == '\n' {
                assert(split_nl(u) =~~= split_nl(t).push(Seq::<char>::empty()));
            } else {
                assert(split_nl(t).last() == rt.last());
                assert(split_nl(u) =~~= split_nl(t).drop_last().push(split_nl(t).last().push(c)));
            }
        } else {
            assert(split_nl(t) =~~= seq![seq![t[0]] + rt[0]] + rt.drop_first());
            assert(split_nl(u) =~~= seq![seq![u[0]] + ru[0]] + ru.drop_first());
            if c == '\n' {
                assert(ru =~~= rt.push(Seq::<char>::empty()));
                if rt.len() == 1 {
                    assert(split_nl(u) =~~= split_nl(t).push(Seq::<char>::empty()));
                } else {
                    assert(split_nl(u) =~~= split_nl(t).push(Seq::<char>::empty()));
                }
            } else {
                assert(ru =~~= rt.drop_last().push(rt.last().push(c)));
                if rt.len() == 1 {
                    assert(split_nl(t).last() =~= seq![t[0]] + rt[0]);
                    assert(split_nl(u) =~~= split_nl(t).drop_last().push(
                        split_nl(t).last().push(c),
                    ));
                } else {
                    assert(split_nl(t).last() == rt.last());
                    assert(split_nl(u) =~~= split_nl(t).drop_last().push(
                        split_nl(t).last().push(c),
                    ));
                }
            }
        }
    }
}

/// Remove trailing whitespace.
pub open spec fn trim_end_ws(s: Seq<char>) -> Seq<char>
    decreases s.len(),
{
    if s.len() > 0 && is_ws(s.last()) {
        trim_end_ws(s.drop_last())
    } else {
        s
    }
}

/// Join pieces with `'\n'`.
pub open spec fn join_nl(ls: Seq<Seq<char>>) -> Seq<char>
    decreases ls.len(),
{
    if ls.len() == 0 {
        Seq::empty()
    } else if ls.len() == 1 {
        ls[0]
    } else {
        ls[0] + seq!['\n'] + join_nl(ls.drop_first())
    }
}

/// The canonical form of a string: NFKC-normalize, then strip each line's
/// trailing whitespace, the lines being split as std's `str::lines` splits
/// them (a final line terminator opens no new line).
pub open spec fn canon_str(s: Seq<char>) -> Seq<char> {
    let n = nfkc_of(s);
    let ps = split_nl(n);
    let ps2 = if n.len() > 0 && n.last() == '\n' {
        ps.drop_last()
    } else {
        ps
    };
    join_nl(Seq::new(ps2.len(), |i: int| trim_end_ws(ps2[i])))
}

/// The canonical form of a value.
pub open spec fn canon_val(v: Val) -> Val
    decreases v,
{
    match v {
        Val::Null => Val::Null,
        Val::Bool(b) => Val::Bool(b),
        Val::Int(i) => Val::Int(i),
        Val::Float(bits) => if f_special(bits) {
            Val::Null
        } else if f_neg_zero(bits) {
            Val::Int(0)
        } else {
            Val::Float(bits)
        },
        Val::Str(s) => Val::Str(canon_str(s)),
        Val::Arr(es) => Val::Arr(canon_list(es)),
        Val::Obj(fs) => Val::Obj(sort_pairs(canon_fields(fs))),
    }
}

pub open spec fn canon_list(es: Seq<Val>) -> Seq<Val>
    decreases es,
{
    if es.len() == 0 {
        Seq::empty()
    } else {
        seq![canon_val(es[0])] + canon_list(es.drop_first())
    }
}

pub open spec fn canon_fields(fs: Seq<(Seq<char>, Val)>) -> Seq<(Seq<char>, Val)>
    decreases fs,
{
    if fs.len() == 0 {
        Seq::empty()
    } else {
        seq![(fs[0].0, canon_val(fs[0].1))] + canon_fields(fs.drop_first())
    }
}

/// Insert a pair into a key-sorted run, after any pair whose key is not
/// greater (a stable insertion).
pub open spec fn insert_pair(p: (Seq<char>, Val), s: Seq<(Seq<char>, Val)>) -> Seq<
    (Seq<char>, Val),
>
    decreases s.len(),
{
    if s.len() == 0 {
        seq![p]
    } else if chars_le(s[0].0, p.0) {
        seq![s[0]] + insert_pair(p, s.drop_first())
    } else {
        seq![p] + s
    }
}

/// Stable insertion sort of key/value pairs by key.
pub open spec fn sort_pairs(s: Seq<(Seq<char>, Val)>) -> Seq<(Seq<char>, Val)>
    decreases s.len(),
{
    if s.len() == 0 {
        s
    } else {
        insert_pair(s.last(), sort_pairs(s.drop_last()))
    }
}

pub proof fn lemma_canon_list_index(es: Seq<Val>)
    ensures
        canon_list(es).len() == es.len(),
        forall|i: int| 0 <= i < es.len() ==> #[trigger] canon_list(es)[i] == canon_val(es[i]),
    decreases es,
{
    if es.len() > 0 {
        lemma_canon_list_index(es.drop_first());
        assert forall|i: int|
            0 <= i < es.len() implies #[trigger] canon_list(es)[i] == canon_val(es[i]) by {
            if i > 0 {
                assert(es.drop_first()[i - 1] == es[i]);
            }
        }
    }
}

pub proof fn lemma_canon_fields_index(fs: Seq<(Seq<char>, Val)>)
    ensures
        canon_fields(fs).len() == fs.len(),
        forall|i: int|
            0 <= i < fs.len() ==> #[trigger] canon_fields(fs)[i] == (fs[i].0, canon_val(
                fs[i].1,
            )),
    decreases fs,
{
    if fs.len() > 0 {
        lemma_canon_fields_index(fs.drop_first());
        assert forall|i: int|
            0 <= i < fs.len() implies #[trigger] canon_fields(fs)[i] == (fs[i].0, canon_val(
            fs[i].1,
        )) by {
            if i > 0 {
                assert(fs.drop_first()[i - 1] == fs[i]);
            }
        }
    }
}

/// Where the scan stopped is where `insert_pair` puts the new pair.
pub proof fn lemma_insert_at(p: (Seq<char>, Val), s: Seq<(Seq<char>, Val)>, pos: int)
    requires
        0 <= pos <= s.len(),
        forall|k: int| 0 <= k < pos ==> chars_le((#[trigger] s[k]).0, p.0),
        pos < s.len() ==> !chars_le(s[pos].0, p.0),
    ensures
        insert_pair(p, s) =~= s.take(pos) + seq![p] + s.skip(pos),
    decreases pos,
{
    if pos == 0 {
        if s.len() > 0 {
            assert(insert_pair(p, s) == seq![p] + s);
        }
        assert(insert_pair(p, s) =~= s.take(0) + seq![p] + s.skip(0));
    } else {
        assert(chars_le(s[0].0, p.0));
        lemma_insert_at(p, s.drop_first(), pos - 1);
        assert(s.drop_first().take(pos - 1) =~= s.take(pos).drop_first());
        assert(s.drop_first().skip(pos - 1) =~= s.skip(pos));
        assert(insert_pair(p, s) =~= s.take(pos) + seq![p] + s.skip(pos));
    }
}

/// `trim_end_ws` keeps exactly the prefix up to the last non-whitespace.
pub proof fn lemma_trim_take(p: Seq<char>, e: int)
    requires
        0 <= e <= p.len(),
        forall|k: int| e <= k < p.len() ==> is_ws(#[trigger] p[k]),
        e > 0 ==> !is_ws(p[e - 1]),
    ensures
        trim_end_ws(p) =~= p.take(e),
    decreases p.len(),
{
    if p.len() == e {
        if e > 0 {
            assert(!is_ws(p.last()));
        }
        assert(trim_end_ws(p) == p);
        assert(p.take(e) =~= p);
    } else {
        assert(is_ws(p.last()));
        assert(trim_end_ws(p) == trim_end_ws(p.drop_last()));
        lemma_trim_take(p.drop_last(), e);
        assert(p.drop_last().take(e) =~= p.take(e));
    }
}

/// Joining one more piece appends a separator and the piece.
pub proof fn lemma_join_push(a: Seq<Seq<char>>, x: Seq<char>)
    requires
        a.len() >= 1,
    ensures
        join_nl(a.push(x)) =~= join_nl(a) + seq!['\n'] + x,
    decreases a.len(),
{
    if a.len() == 1 {
        assert(a.push(x)[0] == a[0]);
        assert(a.push(x).drop_first() =~= seq![x]);
        assert(join_nl(seq![x]) == x);
    } else {
        lemma_join_push(a.drop_first(), x);
        assert(a.push(x).drop_first() =~= a.drop_first().push(x));
        assert(a.push(x)[0] == a[0]);
    }
}

/// The keys of a run of fields.
pub open spec fn pair_keys(s: Seq<(Seq<char>, Val)>) -> Seq<Seq<char>> {
    Seq::new(s.len(), |i: int| s[i].0)
}

/// Keys pairwise non-decreasing.
pub open spec fn sorted_le(s: Seq<(Seq<char>, Val)>) -> bool {
    forall|i: int, j: int| 0 <= i < j < s.len() ==> chars_le((#[trigger] s[i]).0, (#[trigger] s[j]).0)
}

/// Keys pairwise strictly increasing: the shape of a canonical object.
pub open spec fn sorted_strict(s: Seq<(Seq<char>, Val)>) -> bool {
    forall|i: int, j: int| 0 <= i < j < s.len() ==> chars_lt((#[trigger] s[i]).0, (#[trigger] s[j]).0)
}

/// Inserting keeps the keys, as a multiset.
pub proof fn lemma_insert_pair_multiset(p: (Seq<char>, Val), s: Seq<(Seq<char>, Val)>)
    ensures
        pair_keys(insert_pair(p, s)).to_multiset() =~= pair_keys(s).to_multiset().insert(p.0),
    decreases s.len(),
{
    broadcast use vstd::seq_lib::group_seq_lib_default;

    pair_keys(s).to_multiset_ensures();
    pair_keys(insert_pair(p, s)).to_multiset_ensures();
    if s.len() == 0 {
        assert(pair_keys(seq![p]) =~= Seq::<Seq<char>>::empty().push(p.0));
        Seq::<Seq<char>>::empty().to_multiset_ensures();
        assert(pair_keys(insert_pair(p, s)).to_multiset() =~= pair_keys(
            s,
        ).to_multiset().insert(p.0));
    } else if chars_le(s[0].0, p.0) {
        lemma_insert_pair_multiset(p, s.drop_first());
        let rest = insert_pair(p, s.drop_first());
        assert(pair_keys(insert_pair(p, s)) =~= seq![s[0].0] + pair_keys(rest));
        vstd::seq_lib::lemma_multiset_commutative(seq![s[0].0], pair_keys(rest));
        assert(pair_keys(s) =~= seq![s[0].0] + pair_keys(s.drop_first()));
        vstd::seq_lib::lemma_multiset_commutative(seq![s[0].0], pair_keys(s.drop_first()));
        seq![s[0].0].to_multiset_ensures();
        assert(seq![s[0].0] =~= Seq::<Seq<char>>::empty().push(s[0].0));
        Seq::<Seq<char>>::empty().to_multiset_ensures();
        assert(pair_keys(insert_pair(p, s)).to_multiset() =~= pair_keys(
            s,
        ).to_multiset().insert(p.0));
    } else {
        assert(pair_keys(insert_pair(p, s)) =~= seq![p.0] + pair_keys(s));
        vstd::seq_lib::lemma_multiset_commutative(seq![p.0], pair_keys(s));
        seq![p.0].to_multiset_ensures();
        assert(seq![p.0] =~= Seq::<Seq<char>>::empty().push(p.0));
        Seq::<Seq<char>>::empty().to_multiset_ensures();
        assert(pair_keys(insert_pair(p, s)).to_multiset() =~= pair_keys(
            s,
        ).to_multiset().insert(p.0));
    }
}

/// Sorting keeps the keys, as a multiset.
pub proof fn lemma_sort_pairs_multiset(s: Seq<(Seq<char>, Val)>)
    ensures
        pair_keys(sort_pairs(s)).to_multiset() =~= pair_keys(s).to_multiset(),
    decreases s.len(),
{
    if s.len() > 0 {
        lemma_sort_pairs_multiset(s.drop_last());
        lemma_insert_pair_multiset(s.last(), sort_pairs(s.drop_last()));
        pair_keys(s).to_multiset_ensures();
        pair_keys(s.drop_last()).to_multiset_ensures();
        assert(pair_keys(s) =~= pair_keys(s.drop_last()).push(s.last().0));
    }
}

/// Inserting into a non-decreasing run keeps it non-decreasing.
pub proof fn lemma_insert_pair_sorted(p: (Seq<char>, Val), s: Seq<(Seq<char>, Val)>)
    requires
        sorted_le(s),
    ensures
        sorted_le(insert_pair(p, s)),
    decreases s.len(),
{
    let r = insert_pair(p, s);
    if s.len() == 0 {
    } else if chars_le(s[0].0, p.0) {
        assert(sorted_le(s.drop_first())) by {
            assert forall|i: int, j: int|
                0 <= i < j < s.drop_first().len() implies chars_le(
                (#[trigger] s.drop_first()[i]).0,
                (#[trigger] s.drop_first()[j]).0,
            ) by {
                assert(s.drop_first()[i] == s[i + 1]);
                assert(s.drop_first()[j] == s[j + 1]);
            }
        }
        lemma_insert_pair_sorted(p, s.drop_first());
        let rest = insert_pair(p, s.drop_first());
        // s[0] is below everything in the inserted rest
        assert forall|i: int, j: int| 0 <= i < j < r.len() implies chars_le(
            (#[trigger] r[i]).0,
            (#[trigger] r[j]).0,
        ) by {
            if i == 0 {
                assert(r[j] == rest[j - 1]);
                lemma_insert_member(p, s.drop_first(), j - 1);
                if rest[j - 1] == p {
                    assert(chars_le(s[0].0, p.0));
                } else {
                    let w = choose|w: int|
                        0 <= w < s.drop_first().len() && s.drop_first()[w] == rest[j - 1];
                    assert(s.drop_first()[w] == s[w + 1]);
                    assert(chars_le(s[0].0, s[w + 1].0));
                }
            } else {
                assert(r[i] == rest[i - 1] && r[j] == rest[j - 1]);
            }
        }
    } else {
        crate::strutil::lemma_chars_lt_total(s[0].0, p.0);
        assert forall|i: int, j: int| 0 <= i < j < r.len() implies chars_le(
            (#[trigger] r[i]).0,
            (#[trigger] r[j]).0,
        ) by {
            if i == 0 {
                assert(r[j] == s[j - 1]);
                if j == 1 {
                    assert(chars_le(p.0, s[0].0));
                } else {
                    assert(chars_le(p.0, s[0].0));
                    assert(chars_le(s[0].0, s[j - 1].0));
                    lemma_chars_le_trans(p.0, s[0].0, s[j - 1].0);
                }
            } else {
                assert(r[i] == s[i - 1] && r[j] == s[j - 1]);
            }
        }
    }
}

/// Every element of an insertion is the new pair or one of the old ones.
pub proof fn lemma_insert_member(p: (Seq<char>, Val), s: Seq<(Seq<char>, Val)>, j: int)
    requires
        0 <= j < insert_pair(p, s).len(),
    ensures
        insert_pair(p, s)[j] == p || exists|w: int| 0 <= w < s.len() && s[w] == insert_pair(p, s)[j],
    decreases s.len(),
{
    if s.len() > 0 && chars_le(s[0].0, p.0) {
        if j == 0 {
            assert(s[0] == insert_pair(p, s)[0]);
        } else {
            lemma_insert_member(p, s.drop_first(), j - 1);
            let r = insert_pair(p, s.drop_first());
            if r[j - 1] == p {
            } else {
                let w = choose|w: int| 0 <= w < s.drop_first().len() && s.drop_first()[w] == r[j - 1];
                assert(s[w + 1] == insert_pair(p, s)[j]);
            }
        }
    } else if s.len() > 0 {
        if j > 0 {
            assert(s[j - 1] == insert_pair(p, s)[j]);
        }
    }
}

pub proof fn lemma_chars_le_trans(a: Seq<char>, b: Seq<char>, c: Seq<char>)
    requires
        chars_le(a, b),
        chars_le(b, c),
    ensures
        chars_le(a, c),
{
    if a != b && b != c {
        crate::strutil::lemma_chars_lt_trans(a, b, c);
    }
}

/// The sorted run of distinct-keyed fields is strictly increasing.
pub proof fn lemma_sort_pairs_strict(s: Seq<(Seq<char>, Val)>)
    requires
        forall|i: int, j: int| 0 <= i < j < s.len() ==> (#[trigger] s[i]).0 != (#[trigger] s[j]).0,
    ensures
        sorted_strict(sort_pairs(s)),
        sort_pairs(s).len() == s.len(),
    decreases s.len(),
{
    lemma_sort_pairs_sorted(s);
    lemma_sort_pairs_multiset(s);
    lemma_sort_pairs_len(s);
    let t = sort_pairs(s);
    assert(pair_keys(s).no_duplicates()) by {
        assert forall|i: int, j: int|
            0 <= i < pair_keys(s).len() && 0 <= j < pair_keys(s).len() && i != j implies pair_keys(
            s,
        )[i] != pair_keys(s)[j] by {
            if i < j {
                assert(s[i].0 != s[j].0);
            } else {
                assert(s[j].0 != s[i].0);
            }
        }
    }
    pair_keys(s).lemma_multiset_has_no_duplicates();
    assert(pair_keys(t).no_duplicates()) by {
        pair_keys(t).lemma_multiset_has_no_duplicates_conv();
    }
    assert forall|i: int, j: int| 0 <= i < j < t.len() implies chars_lt(
        (#[trigger] t[i]).0,
        (#[trigger] t[j]).0,
    ) by {
        assert(chars_le(t[i].0, t[j].0));
        assert(pair_keys(t)[i] == t[i].0 && pair_keys(t)[j] == t[j].0);
        assert(t[i].0 != t[j].0);
    }
}

pub proof fn lemma_sort_pairs_sorted(s: Seq<(Seq<char>, Val)>)
    ensures
        sorted_le(sort_pairs(s)),
    decreases s.len(),
{
    if s.len() > 0 {
        lemma_sort_pairs_sorted(s.drop_last());
        lemma_insert_pair_sorted(s.last(), sort_pairs(s.drop_last()));
    }
}

pub proof fn lemma_sort_pairs_len(s: Seq<(Seq<char>, Val)>)
    ensures
        sort_pairs(s).len() == s.len(),
    decreases s.len(),
{
    if s.len() > 0 {
        lemma_sort_pairs_len(s.drop_last());
        lemma_insert_pair_len(s.last(), sort_pairs(s.drop_last()));
    }
}

pub proof fn lemma_insert_pair_len(p: (Seq<char>, Val), s: Seq<(Seq<char>, Val)>)
    ensures
        insert_pair(p, s).len() == s.len() + 1,
    decreases s.len(),
{
    if s.len() > 0 && chars_le(s[0].0, p.0) {
        lemma_insert_pair_len(p, s.drop_first());
    }
}

/// The canonical form of one string.
pub fn canon_string(s: &str) -> (r: String)
    ensures
        r@ == canon_str(s@),
{
    let normalized = nfkc(s);
    let cs = str_chars(normalized.as_str());
    let ghost nv = nfkc_of(s@);
    // split into lines on '\n'
    let mut pieces: Vec<Vec<char>> = Vec::new();
    let mut cur: Vec<char> = Vec::new();
    let mut i: usize = 0;
    proof {
        assert(cs@.take(0) =~= Seq::<char>::empty());
    }
    while i < cs.len()
        invariant
            cs@ == nv,
            0 <= i <= cs@.len(),
            split_nl(cs@.take(i as int)) =~~= Seq::new(pieces@.len(), |j: int| pieces@[j]@).push(
                cur@,
            ),
        decreases cs@.len() - i,
    {
        let c = cs[i];
        proof {
            assert(cs@.take(i as int).push(c) =~= cs@.take(i as int + 1));
            lemma_split_nl_snoc(cs@.take(i as int), c);
            lemma_split_nl_len(cs@.take(i as int));
        }
        let ghost before = Seq::new(pieces@.len(), |j: int| pieces@[j]@).push(cur@);
        if c == '\n' {
            let done = cur;
            cur = Vec::new();
            pieces.push(done);
            proof {
                assert(split_nl(cs@.take(i as int + 1)) =~~= before.push(Seq::<char>::empty()));
                assert(Seq::new(pieces@.len(), |j: int| pieces@[j]@).push(cur@) =~~= before.push(
                    Seq::<char>::empty(),
                ));
            }
        } else {
            cur.push(c);
            proof {
                assert(split_nl(cs@.take(i as int + 1)) =~~= before.drop_last().push(
                    before.last().push(c),
                ));
                assert(Seq::new(pieces@.len(), |j: int| pieces@[j]@).push(cur@)
                    =~~= before.drop_last().push(before.last().push(c)));
            }
        }
        i = i + 1;
    }
    proof {
        assert(cs@.take(cs@.len() as int) =~= cs@);
    }
    pieces.push(cur);
    proof {
        assert(split_nl(nv) =~~= Seq::new(pieces@.len(), |j: int| pieces@[j]@));
    }
    // a final line terminator opens no new line
    if cs.len() > 0 && cs[cs.len() - 1] == '\n' {
        pieces.pop();
        proof {
            assert(nv.last() == '\n');
            assert(split_nl(nv).drop_last() =~= Seq::new(pieces@.len(), |j: int| pieces@[j]@));
        }
    } else {
        proof {
            if nv.len() > 0 {
                assert(cs@[cs@.len() - 1] != '\n');
            }
        }
    }
    let ghost ps2 = if nv.len() > 0 && nv.last() == '\n' {
        split_nl(nv).drop_last()
    } else {
        split_nl(nv)
    };
    proof {
        assert(ps2 =~= Seq::new(pieces@.len(), |j: int| pieces@[j]@));
    }
    let ghost tv = Seq::new(ps2.len(), |i: int| trim_end_ws(ps2[i]));
    // trim each line's trailing whitespace and join with '\n'
    let mut out: Vec<char> = Vec::new();
    let mut j: usize = 0;
    while j < pieces.len()
        invariant
            ps2 =~= Seq::new(pieces@.len(), |j: int| pieces@[j]@),
            tv == Seq::new(ps2.len(), |i: int| trim_end_ws(ps2[i])),
            0 <= j <= pieces@.len(),
            out@ =~= join_nl(tv.take(j as int)),
        decreases pieces@.len() - j,
    {
        let piece = &pieces[j];
        let mut e: usize = piece.len();
        while e > 0 && is_ws_exec(piece[e - 1])
            invariant
                0 <= e <= piece@.len(),
                forall|k: int| e <= k < piece@.len() ==> is_ws(#[trigger] piece@[k]),
            decreases e,
        {
            e = e - 1;
        }
        proof {
            lemma_trim_take(piece@, e as int);
            assert(trim_end_ws(ps2[j as int]) =~= piece@.take(e as int));
        }
        if j > 0 {
            out.push('\n');
        }
        let ghost base = out@;
        let mut k: usize = 0;
        while k < e
            invariant
                0 <= k <= e <= piece@.len(),
                out@ =~= base + piece@.take(k as int),
            decreases e - k,
        {
            out.push(piece[k]);
            proof {
                assert(piece@.take(k as int).push(piece@[k as int]) =~= piece@.take(k as int + 1));
            }
            k = k + 1;
        }
        proof {
            if j == 0 {
                assert(tv.take(1) =~= seq![tv[0]]);
                assert(join_nl(seq![tv[0]]) == tv[0]);
                assert(out@ =~= join_nl(tv.take(1)));
            } else {
                lemma_join_push(tv.take(j as int), tv[j as int]);
                assert(tv.take(j as int).push(tv[j as int]) =~= tv.take(j as int + 1));
                assert(out@ =~= join_nl(tv.take(j as int + 1)));
            }
        }
        j = j + 1;
    }
    proof {
        assert(tv.take(tv.len() as int) =~= tv);
        if pieces@.len() == 0 {
            assert(out@ =~= join_nl(tv));
        }
    }
    chars_string(&out)
}

/// Canonicalize a value: a total function over well-formed values.
#[verifier::loop_isolation(false)]
pub fn canonicalize(v: &Value) -> (r: Value)
    ensures
        r@ == canon_val(v@),
    decreases v,
{
    match v {
        Value::Null => Value::Null,
        Value::Bool(b) => Value::Bool(*b),
        Value::Int(i) => Value::Int(*i),
        Value::Float(bits) => {
            if float_special(*bits) {
                Value::Null
            } else if float_neg_zero(*bits) {
                Value::Int(0)
            } else {
                Value::Float(*bits)
            }
        },
        Value::Str(s) => Value::Str(canon_string(s.as_str())),
        Value::Arr(a) => {
            let mut out: Vec<Value> = Vec::new();
            let mut i: usize = 0;
            while i < a.len()
                invariant
                    0 <= i <= a@.len(),
                    out@.len() == i,
                    forall|k: int|
                        0 <= k < i ==> val_of(#[trigger] out@[k]) == canon_val(
                            crate::value::vals_of(a@)[k],
                        ),
                decreases a@.len() - i,
            {
                proof {
                    crate::value::lemma_vals_of_index(a@);
                    assert(decreases_to!(*v => a@[i as int])) by {
                        assert(*v == Value::Arr(*a));
                        assert(decreases_to!(*v => (*v)->Arr_0));
                        assert((*v)->Arr_0 == *a);
                        assert(decreases_to!(*a => a@));
                        assert(decreases_to!(a@ => a@[i as int]));
                    }
                }
                let c = canonicalize(&a[i]);
                out.push(c);
                i = i + 1;
            }
            proof {
                crate::value::lemma_vals_of_index(a@);
                crate::value::lemma_vals_of_index(out@);
                lemma_canon_list_index(crate::value::vals_of(a@));
                assert(crate::value::vals_of(out@) =~= canon_list(crate::value::vals_of(a@)));
            }
            Value::Arr(out)
        },
        Value::Obj(fs) => {
            // canonicalize the field values, keeping the keys
            let mut tmp: Vec<(String, Value)> = Vec::new();
            let mut i: usize = 0;
            while i < fs.len()
                invariant
                    0 <= i <= fs@.len(),
                    tmp@.len() == i,
                    forall|k: int|
                        0 <= k < i ==> (#[trigger] tmp@[k]).0@ == fs@[k].0@ && val_of(tmp@[k].1)
                            == canon_val(val_of(fs@[k].1)),
                decreases fs@.len() - i,
            {
                let pair = &fs[i];
                proof {
                    assert(decreases_to!(*v => fs@[i as int].1)) by {
                        assert(*v == Value::Obj(*fs));
                        assert(decreases_to!(*v => (*v)->Obj_0));
                        assert((*v)->Obj_0 == *fs);
                        assert(decreases_to!(*fs => fs@));
                        assert(decreases_to!(fs@ => fs@[i as int]));
                        assert(decreases_to!(fs@[i as int] => fs@[i as int].1));
                    }
                }
                let ck = pair.0.clone();
                let cv = canonicalize(&pair.1);
                tmp.push((ck, cv));
                i = i + 1;
            }
            proof {
                crate::value::lemma_pairs_of_index(fs@);
                crate::value::lemma_pairs_of_index(tmp@);
                lemma_canon_fields_index(crate::value::pairs_of(fs@));
                assert(crate::value::pairs_of(tmp@) =~= canon_fields(
                    crate::value::pairs_of(fs@),
                ));
            }
            let ghost cf = canon_fields(crate::value::pairs_of(fs@));
            proof {
                assert(cf.skip(0) =~= cf);
            }
            // stable insertion sort by key
            let mut sorted: Vec<(String, Value)> = Vec::new();
            let ghost mut done: int = 0;
            while tmp.len() > 0
                invariant
                    0 <= done,
                    done + tmp@.len() == cf.len(),
                    crate::value::pairs_of(tmp@) =~= cf.skip(done),
                    crate::value::pairs_of(sorted@) =~= sort_pairs(cf.take(done)),
                decreases tmp@.len(),
            {
                let ghost old_tmp = tmp@;
                let e = tmp.remove(0);
                let ekc = str_chars(e.0.as_str());
                let mut pos: usize = 0;
                #[verifier::loop_isolation(true)]
                loop
                    invariant_except_break
                        0 <= pos <= sorted@.len(),
                        ekc@ == e.0@,
                        forall|k: int| 0 <= k < pos ==> chars_le((#[trigger] sorted@[k]).0@, e.0@),
                    ensures
                        0 <= pos <= sorted@.len(),
                        forall|k: int| 0 <= k < pos ==> chars_le((#[trigger] sorted@[k]).0@, e.0@),
                        pos < sorted@.len() ==> !chars_le(sorted@[pos as int].0@, e.0@),
                    decreases sorted@.len() - pos,
                {
                    if pos >= sorted.len() {
                        break;
                    }
                    let skc = str_chars(sorted[pos].0.as_str());
                    if !crate::strutil::chars_le_exec(&skc, &ekc) {
                        break;
                    }
                    pos = pos + 1;
                }
                proof {
                    crate::value::lemma_pairs_of_index(sorted@);
                    crate::value::lemma_pairs_of_index(tmp@);
                }
                let ghost old_sorted = sorted@;
                sorted.insert(pos, e);
                proof {
                    let sp = crate::value::pairs_of(old_sorted);
                    let ep = (e.0@, val_of(e.1));
                    crate::value::lemma_pairs_of_index(sorted@);
                    crate::value::lemma_pairs_of_index(old_sorted);
                    crate::value::lemma_pairs_of_index(tmp@);
                    crate::value::lemma_pairs_of_index(old_tmp);
                    old_sorted.insert_ensures(pos as int, e);
                    // the element removed from the front is the next spec pair
                    assert(e == old_tmp[0]);
                    assert(ep == crate::value::pairs_of(old_tmp)[0]);
                    assert(ep == cf[done]);
                    assert forall|k: int| 0 <= k < pos implies chars_le(
                        (#[trigger] sp[k]).0,
                        ep.0,
                    ) by {
                        assert(sp[k].0 == old_sorted[k].0@);
                    }
                    if (pos as int) < sp.len() {
                        assert(sp[pos as int].0 == old_sorted[pos as int].0@);
                    }
                    lemma_insert_at(ep, sp, pos as int);
                    assert(sorted@ == old_sorted.insert(pos as int, e));
                    assert(crate::value::pairs_of(sorted@) =~= sp.take(pos as int) + seq![ep]
                        + sp.skip(pos as int));
                    // one more insertion step of the spec sort
                    assert(cf.take(done + 1).drop_last() =~= cf.take(done));
                    assert(cf.take(done + 1).last() == cf[done]);
                    assert(sort_pairs(cf.take(done + 1)) == insert_pair(
                        ep,
                        sort_pairs(cf.take(done)),
                    ));
                    assert(crate::value::pairs_of(sorted@) =~= sort_pairs(cf.take(done + 1)));
                    // the rest of the spec pairs moves up by one
                    assert(tmp@ == old_tmp.remove(0));
                    assert(cf.skip(done + 1) =~= cf.skip(done).drop_first());
                    assert(crate::value::pairs_of(tmp@) =~= cf.skip(done + 1));
                    done = done + 1;
                }
            }
            proof {
                assert(cf.take(done) =~= cf);
                assert(crate::value::pairs_of(sorted@) =~= sort_pairs(cf));
            }
            Value::Obj(sorted)
        },
    }
}

} // verus!
