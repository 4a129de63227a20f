//! The properties the library stands on, stated and proved: the binary
//! roundtrip, encoding determinism, dictionary deduplication,
//! canonicalization idempotence, and key-order invariance.

use vstd::prelude::*;
use vstd::utf8::encode_utf8;
use crate::binary::{
    le_bytes,
    le_read,
    pow256,
    vread_at,
    obj_insert,
    dict_id,
    enc_val,
    enc_list,
    enc_fields,
    dict_bytes,
    header_bytes,
    doc_of,
    scan_val,
    scan_list,
    scan_keys,
    scan_vals,
    sizes_ok,
    strs_in,
    entries_ok,
    parse_value,
    parse_items,
    parse_fields,
    parse_dict,
    parse_doc,
    DecodeError,
    byte_of_i8,
    i8_of_byte,
    u32_of_i32,
    i32_of_u32,
    lemma_scan_covers,
    lemma_scan_entries_ok,
    lemma_varint_read_bounds,
    lemma_tbl_add_keeps,
    lemma_pow256_values,
};
use crate::canon::{
    canon_val,
    canon_list,
    canon_fields,
    canon_str,
    sort_pairs,
    insert_pair,
    sorted_le,
    sorted_strict,
    pair_keys,
    lemma_canon_list_index,
    lemma_canon_fields_index,
    lemma_sort_pairs_strict,
    lemma_sort_pairs_sorted,
    lemma_insert_member,
    lemma_chars_le_trans,
};
use crate::floatbits::{float_int, f_special, f64_bits_of_i64, lemma_i64_bits_not_special, lemma_float_int_range};
use crate::strtab::{tbl_add, tbl_find, lemma_tbl_find};
use crate::strutil::{chars_lt, chars_le, lemma_chars_lt_total};
use crate::value::{Val, wf_val};
use crate::varint::{varint_of, varint_read, lemma_varint_of_len, lemma_varint_roundtrip};

verus! {

/// Every object of the value has strictly increasing keys: the shape
/// canonicalization produces.
pub open spec fn keys_strict(v: Val) -> bool
    decreases v,
{
    match v {
        Val::Arr(es) => forall|i: int| 0 <= i < es.len() ==> keys_strict(#[trigger] es[i]),
        Val::Obj(fs) => sorted_strict(fs) && (forall|i: int|
            0 <= i < fs.len() ==> keys_strict((#[trigger] fs[i]).1)),
        _ => true,
    }
}

/// Every element of the sorted run is one of the originals.
pub proof fn lemma_sort_member(s: Seq<(Seq<char>, Val)>, j: int)
    requires
        0 <= j < sort_pairs(s).len(),
    ensures
        exists|w: int| 0 <= w < s.len() && s[w] == sort_pairs(s)[j],
    decreases s.len(),
{
    if s.len() > 0 {
        lemma_insert_member(s.last(), sort_pairs(s.drop_last()), j);
        let r = sort_pairs(s);
        if r[j] == s.last() {
            assert(s[s.len() - 1] == r[j]);
        } else {
            let w0 = choose|w0: int|
                0 <= w0 < sort_pairs(s.drop_last()).len() && sort_pairs(s.drop_last())[w0] == r[j];
            lemma_sort_member(s.drop_last(), w0);
            let w = choose|w: int|
                0 <= w < s.drop_last().len() && s.drop_last()[w] == sort_pairs(s.drop_last())[w0];
            assert(s[w] == r[j]);
        }
    }
}

/// Canonicalization of a well-formed value yields strictly sorted objects.
pub proof fn lemma_canon_keys_strict(v: Val)
    requires
        wf_val(v),
    ensures
        keys_strict(canon_val(v)),
    decreases v,
{
    match v {
        Val::Arr(es) => {
            lemma_canon_list_index(es);
            assert forall|i: int|
                0 <= i < canon_list(es).len() implies keys_strict(#[trigger] canon_list(es)[i]) by {
                assert(wf_val(es[i]));
                lemma_canon_keys_strict(es[i]);
            }
        },
        Val::Obj(fs) => {
            let cf = canon_fields(fs);
            lemma_canon_fields_index(fs);
            assert forall|i: int, j: int|
                0 <= i < j < cf.len() implies (#[trigger] cf[i]).0 != (#[trigger] cf[j]).0 by {
                assert(cf[i].0 == fs[i].0 && cf[j].0 == fs[j].0);
            }
            lemma_sort_pairs_strict(cf);
            assert forall|i: int|
                0 <= i < sort_pairs(cf).len() implies keys_strict(
                (#[trigger] sort_pairs(cf)[i]).1,
            ) by {
                lemma_sort_member(cf, i);
                let w = choose|w: int| 0 <= w < cf.len() && cf[w] == sort_pairs(cf)[i];
                assert(cf[w].1 == canon_val(fs[w].1));
                assert(wf_val(fs[w].1));
                lemma_canon_keys_strict(fs[w].1);
            }
        },
        _ => {},
    }
}

/// What one binary roundtrip makes of a canonical value: integers and
/// int-like doubles trade places per the numeric policy, everything else
/// survives unchanged.
pub open spec fn reclass(v: Val) -> Val
    decreases v, 1int,
{
    match v {
        Val::Int(i) => if -0x80000000 <= i <= 0x7fffffff {
            Val::Int(i)
        } else {
            Val::Float(f64_bits_of_i64(i))
        },
        Val::Float(bits) => match float_int(bits) {
            Option::Some(n) => Val::Int(n),
            Option::None => if f_special(bits) {
                Val::Null
            } else {
                Val::Float(bits)
            },
        },
        Val::Arr(es) => Val::Arr(reclass_list(es)),
        Val::Obj(fs) => Val::Obj(reclass_fields(fs)),
        _ => v,
    }
}

pub open spec fn reclass_list(es: Seq<Val>) -> Seq<Val>
    decreases es, 0int,
{
    if es.len() == 0 {
        Seq::empty()
    } else {
        seq![reclass(es[0])] + reclass_list(es.drop_first())
    }
}

pub open spec fn reclass_fields(fs: Seq<(Seq<char>, Val)>) -> Seq<(Seq<char>, Val)>
    decreases fs, 0int,
{
    if fs.len() == 0 {
        Seq::empty()
    } else {
        seq![(fs[0].0, reclass(fs[0].1))] + reclass_fields(fs.drop_first())
    }
}

/// A concatenation laid out in a buffer splits into its parts.
pub proof fn lemma_subrange_split(b: Seq<u8>, pos: int, x: Seq<u8>, y: Seq<u8>)
    requires
        0 <= pos,
        pos + x.len() + y.len() <= b.len(),
        b.subrange(pos, pos + x.len() + y.len()) == x + y,
    ensures
        b.subrange(pos, pos + x.len() as int) == x,
        b.subrange(pos + x.len(), pos + x.len() + y.len()) == y,
{
    assert(b.subrange(pos, pos + x.len() as int) =~= x) by {
        assert forall|i: int| 0 <= i < x.len() implies b[pos + i] == x[i] by {
            assert((x + y)[i] == x[i]);
            assert(b.subrange(pos, pos + x.len() + y.len())[i] == b[pos + i]);
        }
    }
    assert(b.subrange(pos + x.len(), pos + x.len() + y.len()) =~= y) by {
        assert forall|i: int| 0 <= i < y.len() implies b[pos + x.len() + i] == y[i] by {
            assert((x + y)[x.len() + i] == y[i]);
            assert(b.subrange(pos, pos + x.len() + y.len())[x.len() + i] == b[pos + x.len() + i]);
        }
    }
}

/// A varint laid out at `pos` reads back as its value.
pub proof fn lemma_vread_here(b: Seq<u8>, pos: int, n: nat)
    requires
        0 <= pos,
        n < 0x100000000,
        pos + varint_of(n).len() <= b.len(),
        b.subrange(pos, pos + varint_of(n).len() as int) == varint_of(n),
    ensures
        vread_at(b, pos) == ((n, varint_of(n).len() as int)),
{
    let l = varint_of(n).len() as int;
    assert(b.skip(pos) =~= varint_of(n) + b.skip(pos + l)) by {
        assert forall|i: int| 0 <= i < b.len() - pos implies b.skip(pos)[i] == (varint_of(n)
            + b.skip(pos + l))[i] by {
            if i < l {
                assert(b.subrange(pos, pos + l)[i] == b[pos + i]);
            }
        }
    }
    lemma_varint_roundtrip(n, b.skip(pos + l));
    lemma_varint_read_bounds(b.skip(pos));
    assert(varint_read(b.skip(pos)).0 % 0x100000000 == n) by {
        assert(varint_read(b.skip(pos)).0 == n);
    }
}

/// Little-endian bytes laid out at `pos` read back as their value.
pub proof fn lemma_le_roundtrip(b: Seq<u8>, pos: int, v: nat, k: nat)
    requires
        0 <= pos,
        pos + k <= b.len(),
        v < pow256(k),
        b.subrange(pos, pos + k as int) == le_bytes(v, k),
    ensures
        le_read(b, pos, k) == v,
    decreases k,
{
    lemma_le_bytes_len(v, k);
    if k == 0 {
    } else {
        assert(b[pos] == le_bytes(v, k)[0]);
        assert(le_bytes(v, k)[0] == (v % 256) as u8);
        assert(b.subrange(pos + 1, pos + k as int) =~= le_bytes(v / 256, (k - 1) as nat)) by {
            assert forall|i: int| 0 <= i < k - 1 implies b[pos + 1 + i] == #[trigger] le_bytes(
                v / 256,
                (k - 1) as nat,
            )[i] by {
                assert(b.subrange(pos, pos + k as int)[i + 1] == b[pos + 1 + i]);
                assert(le_bytes(v, k)[i + 1] == le_bytes(v / 256, (k - 1) as nat)[i]);
            }
        }
        assert(v / 256 < pow256((k - 1) as nat)) by (nonlinear_arith)
            requires
                v < pow256(k),
                pow256(k) == 256 * pow256((k - 1) as nat),
        ;
        lemma_le_roundtrip(b, pos + 1, v / 256, (k - 1) as nat);
        assert(v % 256 + 256 * (v / 256) == v) by (nonlinear_arith);
    }
}

pub proof fn lemma_le_bytes_len(v: nat, k: nat)
    ensures
        le_bytes(v, k).len() == k,
    decreases k,
{
    if k > 0 {
        lemma_le_bytes_len(v / 256, (k - 1) as nat);
    }
}

/// The opcode tree of any value is at least one byte.
pub proof fn lemma_enc_len_pos(c: Val, d: Seq<Seq<char>>)
    ensures
        enc_val(c, d).len() >= 1,
{
    match c {
        Val::Int(i) => {
            if -128 <= i <= 127 {
            } else if -0x80000000 <= i <= 0x7fffffff {
            } else {
            }
        },
        _ => {},
    }
}

/// The main induction: a value laid out at `pos` parses back, re-classified.
pub proof fn lemma_parse_enc(c: Val, d: Seq<Seq<char>>, b: Seq<u8>, pos: int)
    requires
        strs_in(c, d),
        sizes_ok(c),
        keys_strict(c),
        d.len() < 0x100000000,
        0 <= pos,
        pos + enc_val(c, d).len() <= b.len(),
        b.subrange(pos, pos + enc_val(c, d).len() as int) == enc_val(c, d),
    ensures
        parse_value(b, pos, d) == Ok::<(Val, int), DecodeError>(
            (reclass(c), pos + enc_val(c, d).len()),
        ),
    decreases c, 2int,
{
    lemma_pow256_values();
    let e = enc_val(c, d);
    let l = e.len() as int;
    assert(b[pos] == e[0]) by {
        assert(b.subrange(pos, pos + l)[0] == b[pos]);
    }
    match c {
        Val::Null => {},
        Val::Bool(bv) => {},
        Val::Int(i) => {
            if -128 <= i <= 127 {
                assert(b[pos + 1] == e[1]) by {
                    assert(b.subrange(pos, pos + l)[1] == b[pos + 1]);
                }
                assert(i8_of_byte(byte_of_i8(i as int)) == i as int);
            } else if -0x80000000 <= i <= 0x7fffffff {
                let u = u32_of_i32(i as int);
                lemma_le_bytes_len(u, 4);
                lemma_subrange_split(b, pos, seq![5u8], le_bytes(u, 4));
                lemma_le_roundtrip(b, pos + 1, u, 4);
                assert(i32_of_u32(u) == i as int);
            } else {
                let bits = f64_bits_of_i64(i);
                lemma_le_bytes_len(bits as nat, 8);
                lemma_subrange_split(b, pos, seq![6u8], le_bytes(bits as nat, 8));
                lemma_le_roundtrip(b, pos + 1, bits as nat, 8);
                assert((le_read(b, pos + 1, 8) as u64) == bits);
                lemma_i64_bits_not_special(i);
            }
        },
        Val::Float(bits) => {
            match float_int(bits) {
                Option::Some(n) => {
                    lemma_float_int_range(bits);
                    if -128 <= n <= 127 {
                        assert(b[pos + 1] == e[1]) by {
                            assert(b.subrange(pos, pos + l)[1] == b[pos + 1]);
                        }
                        assert(i8_of_byte(byte_of_i8(n as int)) == n as int);
                    } else {
                        let u = u32_of_i32(n as int);
                        lemma_le_bytes_len(u, 4);
                        lemma_subrange_split(b, pos, seq![5u8], le_bytes(u, 4));
                        lemma_le_roundtrip(b, pos + 1, u, 4);
                        assert(i32_of_u32(u) == n as int);
                    }
                },
                Option::None => {
                    lemma_le_bytes_len(bits as nat, 8);
                    lemma_subrange_split(b, pos, seq![6u8], le_bytes(bits as nat, 8));
                    lemma_le_roundtrip(b, pos + 1, bits as nat, 8);
                    assert((le_read(b, pos + 1, 8) as u64) == bits);
                },
            }
        },
        Val::Str(s) => {
            lemma_tbl_find(d, s);
            let id = dict_id(d, s);
            assert(id < d.len());
            lemma_varint_of_len(id);
            lemma_subrange_split(b, pos, seq![7u8], varint_of(id));
            lemma_vread_here(b, pos + 1, id);
            assert(d[id as int] == s);
        },
        Val::Arr(es) => {
            lemma_varint_of_len(es.len());
            let vl = varint_of(es.len());
            assert(enc_val(c, d) =~= seq![8u8] + (vl + enc_list(es, d)));
            lemma_subrange_split(b, pos, seq![8u8], vl + enc_list(es, d));
            lemma_subrange_split(b, pos + 1, vl, enc_list(es, d));
            lemma_vread_here(b, pos + 1, es.len());
            let start = pos + 1 + vl.len();
            assert forall|i: int| 0 <= i < es.len() implies strs_in(#[trigger] es[i], d)
                && sizes_ok(es[i]) && keys_strict(es[i]) by {}
            lemma_parse_enc_items(es, d, b, start, Seq::empty());
            assert(Seq::<Val>::empty() + reclass_list(es) =~= reclass_list(es));
            assert(parse_value(b, pos, d) == Ok::<(Val, int), DecodeError>(
                (Val::Arr(reclass_list(es)), pos + l),
            ));
        },
        Val::Obj(fs) => {
            lemma_varint_of_len(fs.len());
            let vl = varint_of(fs.len());
            assert(enc_val(c, d) =~= seq![9u8] + (vl + enc_fields(fs, d)));
            lemma_subrange_split(b, pos, seq![9u8], vl + enc_fields(fs, d));
            lemma_subrange_split(b, pos + 1, vl, enc_fields(fs, d));
            lemma_vread_here(b, pos + 1, fs.len());
            let start = pos + 1 + vl.len();
            lemma_parse_enc_fields(fs, d, b, start, Seq::empty());
            assert(Seq::<(Seq<char>, Val)>::empty() + reclass_fields(fs) =~= reclass_fields(fs));
            assert(parse_value(b, pos, d) == Ok::<(Val, int), DecodeError>(
                (Val::Obj(reclass_fields(fs)), pos + l),
            ));
        },
    }
}

/// Elements laid out back to back parse back in order.
pub proof fn lemma_parse_enc_items(
    es: Seq<Val>,
    d: Seq<Seq<char>>,
    b: Seq<u8>,
    pos: int,
    acc: Seq<Val>,
)
    requires
        forall|i: int|
            0 <= i < es.len() ==> strs_in(#[trigger] es[i], d) && sizes_ok(es[i]) && keys_strict(
                es[i],
            ),
        d.len() < 0x100000000,
        0 <= pos,
        pos + enc_list(es, d).len() <= b.len(),
        b.subrange(pos, pos + enc_list(es, d).len() as int) == enc_list(es, d),
    ensures
        parse_items(b, pos, es.len(), d, acc) == Ok::<(Seq<Val>, int), DecodeError>(
            (acc + reclass_list(es), pos + enc_list(es, d).len()),
        ),
    decreases es, 1int,
{
    if es.len() == 0 {
        assert(acc + reclass_list(es) =~= acc);
    } else {
        let e0 = enc_val(es[0], d);
        let rest = es.drop_first();
        assert(enc_list(es, d) == e0 + enc_list(rest, d));
        lemma_subrange_split(b, pos, e0, enc_list(rest, d));
        lemma_enc_len_pos(es[0], d);
        lemma_parse_enc(es[0], d, b, pos);
        let np = pos + e0.len();
        assert forall|i: int| 0 <= i < rest.len() implies strs_in(#[trigger] rest[i], d)
            && sizes_ok(rest[i]) && keys_strict(rest[i]) by {
            assert(rest[i] == es[i + 1]);
        }
        lemma_parse_enc_items(rest, d, b, np, acc.push(reclass(es[0])));
        assert(acc.push(reclass(es[0])) + reclass_list(rest) =~= acc + reclass_list(es)) by {
            assert(reclass_list(es) == seq![reclass(es[0])] + reclass_list(rest));
        }
        assert(parse_items(b, pos, es.len(), d, acc) == parse_items(
            b,
            np,
            (es.len() - 1) as nat,
            d,
            acc.push(reclass(es[0])),
        )) by {
            assert(pos < b.len());
        }
    }
}

/// Fields laid out back to back parse back in order: with strictly
/// increasing keys each decoded field lands at the end.
pub proof fn lemma_parse_enc_fields(
    fs: Seq<(Seq<char>, Val)>,
    d: Seq<Seq<char>>,
    b: Seq<u8>,
    pos: int,
    acc: Seq<(Seq<char>, Val)>,
)
    requires
        sorted_strict(fs),
        forall|i: int|
            0 <= i < fs.len() ==> d.contains((#[trigger] fs[i]).0) && strs_in(fs[i].1, d)
                && sizes_ok(fs[i].1) && keys_strict(fs[i].1),
        forall|x: int, i: int|
            0 <= x < acc.len() && 0 <= i < fs.len() ==> chars_lt(
                (#[trigger] acc[x]).0,
                (#[trigger] fs[i]).0,
            ),
        d.len() < 0x100000000,
        0 <= pos,
        pos + enc_fields(fs, d).len() <= b.len(),
        b.subrange(pos, pos + enc_fields(fs, d).len() as int) == enc_fields(fs, d),
    ensures
        parse_fields(b, pos, fs.len(), d, acc) == Ok::<
            (Seq<(Seq<char>, Val)>, int),
            DecodeError,
        >((acc + reclass_fields(fs), pos + enc_fields(fs, d).len())),
    decreases fs, 1int,
{
    if fs.len() == 0 {
        assert(acc + reclass_fields(fs) =~= acc);
    } else {
        let k0 = fs[0].0;
        let v0 = fs[0].1;
        lemma_tbl_find(d, k0);
        let kid = dict_id(d, k0);
        assert(kid < d.len());
        lemma_varint_of_len(kid);
        let kvl = varint_of(kid);
        let e0 = enc_val(v0, d);
        let rest = fs.drop_first();
        assert(enc_fields(fs, d) == kvl + e0 + enc_fields(rest, d));
        assert(enc_fields(fs, d) =~= kvl + (e0 + enc_fields(rest, d)));
        lemma_subrange_split(b, pos, kvl, e0 + enc_fields(rest, d));
        lemma_subrange_split(b, pos + kvl.len(), e0, enc_fields(rest, d));
        lemma_vread_here(b, pos, kid);
        assert(d[kid as int] == k0);
        lemma_enc_len_pos(v0, d);
        lemma_parse_enc(v0, d, b, pos + kvl.len());
        let np = pos + kvl.len() + e0.len();
        lemma_obj_insert_append(acc, k0, reclass(v0));
        assert forall|i: int| 0 <= i < rest.len() implies d.contains((#[trigger] rest[i]).0)
            && strs_in(rest[i].1, d) && sizes_ok(rest[i].1) && keys_strict(rest[i].1) by {
            assert(rest[i] == fs[i + 1]);
        }
        assert(sorted_strict(rest)) by {
            assert forall|i: int, j: int| 0 <= i < j < rest.len() implies chars_lt(
                (#[trigger] rest[i]).0,
                (#[trigger] rest[j]).0,
            ) by {
                assert(rest[i] == fs[i + 1] && rest[j] == fs[j + 1]);
            }
        }
        let acc2 = acc.push((k0, reclass(v0)));
        assert forall|x: int, i: int|
            0 <= x < acc2.len() && 0 <= i < rest.len() implies chars_lt(
            (#[trigger] acc2[x]).0,
            (#[trigger] rest[i]).0,
        ) by {
            assert(rest[i] == fs[i + 1]);
            if x < acc.len() {
                assert(acc2[x] == acc[x]);
            } else {
                assert(acc2[x] == (k0, reclass(v0)));
                assert(chars_lt(fs[0].0, fs[i + 1].0));
            }
        }
        lemma_parse_enc_fields(rest, d, b, np, acc2);
        assert(acc2 + reclass_fields(rest) =~= acc + reclass_fields(fs)) by {
            assert(reclass_fields(fs) == seq![(fs[0].0, reclass(fs[0].1))] + reclass_fields(rest));
        }
        assert(parse_fields(b, pos, fs.len(), d, acc) == parse_fields(
            b,
            np,
            (fs.len() - 1) as nat,
            d,
            obj_insert(acc, k0, reclass(v0)),
        )) by {
            assert(pos < b.len());
        }
    }
}

/// Inserting a field whose key is above every present key appends it.
pub proof fn lemma_obj_insert_append(fs: Seq<(Seq<char>, Val)>, k: Seq<char>, v: Val)
    requires
        forall|i: int| 0 <= i < fs.len() ==> chars_lt((#[trigger] fs[i]).0, k),
    ensures
        obj_insert(fs, k, v) =~= fs.push((k, v)),
    decreases fs.len(),
{
    if fs.len() > 0 {
        assert(chars_lt(fs[0].0, k));
        assert forall|i: int| 0 <= i < fs.drop_first().len() implies chars_lt(
            (#[trigger] fs.drop_first()[i]).0,
            k,
        ) by {
            assert(fs.drop_first()[i] == fs[i + 1]);
        }
        lemma_obj_insert_append(fs.drop_first(), k, v);
    }
}

/// The dictionary section as laid out by one entry then the rest.
pub proof fn lemma_dict_bytes_front(dd: Seq<Seq<char>>)
    requires
        dd.len() > 0,
    ensures
        dict_bytes(dd) =~= varint_of(encode_utf8(dd[0]).len()) + encode_utf8(dd[0]) + dict_bytes(
            dd.drop_first(),
        ),
    decreases dd.len(),
{
    if dd.len() == 1 {
        assert(dd.drop_last() =~= Seq::<Seq<char>>::empty());
        assert(dd.drop_first() =~= Seq::<Seq<char>>::empty());
        assert(dd.last() == dd[0]);
    } else {
        lemma_dict_bytes_front(dd.drop_last());
        assert(dd.drop_last()[0] == dd[0]);
        assert(dd.drop_last().drop_first() =~= dd.drop_first().drop_last());
        assert(dd.drop_first().last() == dd.last());
        assert(dict_bytes(dd.drop_first()) == dict_bytes(dd.drop_first().drop_last()) + varint_of(
            encode_utf8(dd.drop_first().last()).len(),
        ) + encode_utf8(dd.drop_first().last()));
    }
}

/// Dictionary entries laid out at `pos` parse back in order.
pub proof fn lemma_parse_dict_enc(dd: Seq<Seq<char>>, b: Seq<u8>, pos: int, acc: Seq<Seq<char>>)
    requires
        entries_ok(dd),
        0 <= pos,
        pos + dict_bytes(dd).len() <= b.len(),
        b.subrange(pos, pos + dict_bytes(dd).len() as int) == dict_bytes(dd),
    ensures
        parse_dict(b, pos, dd.len(), acc) == Ok::<(Seq<Seq<char>>, int), DecodeError>(
            (acc + dd, pos + dict_bytes(dd).len()),
        ),
    decreases dd.len(),
{
    if dd.len() == 0 {
        assert(acc + dd =~= acc);
    } else {
        let u0 = encode_utf8(dd[0]);
        let vl = varint_of(u0.len());
        let rest = dd.drop_first();
        lemma_dict_bytes_front(dd);
        assert(dict_bytes(dd) =~= vl + (u0 + dict_bytes(rest)));
        lemma_subrange_split(b, pos, vl, u0 + dict_bytes(rest));
        lemma_subrange_split(b, pos + vl.len(), u0, dict_bytes(rest));
        lemma_varint_of_len(u0.len());
        lemma_vread_here(b, pos, u0.len());
        let start = pos + vl.len();
        vstd::utf8::encode_utf8_valid_utf8(dd[0]);
        vstd::utf8::encode_utf8_decode_utf8(dd[0]);
        assert(b.subrange(start, start + u0.len() as int) == u0);
        assert forall|i: int| 0 <= i < rest.len() implies encode_utf8(#[trigger] rest[i]).len()
            < 0x100000000 by {
            assert(rest[i] == dd[i + 1]);
        }
        lemma_parse_dict_enc(rest, b, start + u0.len(), acc.push(dd[0]));
        assert(acc.push(dd[0]) + rest =~= acc + dd);
        assert(parse_dict(b, pos, dd.len(), acc) == parse_dict(
            b,
            start + u0.len(),
            (dd.len() - 1) as nat,
            acc.push(dd[0]),
        ));
    }
}

/// ROUNDTRIP.  Decoding an encoded well-formed value yields its canonical
/// form, up to the numeric re-classification of the encoding policy.
#[verifier::rlimit(100)]
pub proof fn lemma_binary_round_trip(v: Val)
    requires
        wf_val(v),
        sizes_ok(canon_val(v)),
        scan_val(canon_val(v), Seq::<Seq<char>>::empty()).len() < 0x100000000,
    ensures
        parse_doc(doc_of(v)) == Ok::<Val, DecodeError>(reclass(canon_val(v))),
{
    let c = canon_val(v);
    let d = scan_val(c, Seq::<Seq<char>>::empty());
    let b = doc_of(v);
    let hb = header_bytes();
    let vl = varint_of(d.len());
    let db = dict_bytes(d);
    let eb = enc_val(c, d);
    lemma_varint_of_len(d.len());
    assert(b == hb + vl + db + eb);
    assert(b =~= hb + (vl + (db + eb)));
    assert(b.subrange(0, b.len() as int) =~= b);
    lemma_subrange_split(b, 0, hb, vl + (db + eb));
    lemma_subrange_split(b, 5, vl, db + eb);
    lemma_subrange_split(b, 5 + vl.len() as int, db, eb);
    assert(b[0] == 0x54 && b[1] == 0x45 && b[2] == 0x4e && b[3] == 0x53 && b[4] == 2) by {
        assert(b.subrange(0, 5)[0] == b[0]);
        assert(b.subrange(0, 5)[1] == b[1]);
        assert(b.subrange(0, 5)[2] == b[2]);
        assert(b.subrange(0, 5)[3] == b[3]);
        assert(b.subrange(0, 5)[4] == b[4]);
    }
    lemma_vread_here(b, 5, d.len());
    lemma_scan_entries_ok(c, Seq::<Seq<char>>::empty());
    lemma_parse_dict_enc(d, b, 5 + vl.len() as int, Seq::<Seq<char>>::empty());
    assert(Seq::<Seq<char>>::empty() + d =~= d);
    lemma_scan_covers(c, Seq::<Seq<char>>::empty());
    lemma_canon_keys_strict(v);
    lemma_parse_enc(c, d, b, 5 + vl.len() as int + db.len() as int);
}

/// DETERMINISM.  The encoded bytes are a function of the canonical value
/// alone: logically equal inputs produce byte-identical output.
pub proof fn lemma_encode_deterministic(v1: Val, v2: Val)
    requires
        canon_val(v1) == canon_val(v2),
    ensures
        doc_of(v1) == doc_of(v2),
{
}

/// DEDUP.  The dictionary holds each string at most once, and every string
/// and key of the canonical value exactly once — each occurrence in the
/// tree is a reference to that one entry.
pub proof fn lemma_dict_dedup(v: Val)
    ensures
        ({
            let d = scan_val(canon_val(v), Seq::<Seq<char>>::empty());
            &&& tbl_distinct(d)
            &&& strs_in(canon_val(v), d)
        }),
{
    lemma_scan_covers(canon_val(v), Seq::<Seq<char>>::empty());
    lemma_scan_distinct(canon_val(v), Seq::<Seq<char>>::empty());
}

/// Pairwise-distinct entries.
pub open spec fn tbl_distinct(t: Seq<Seq<char>>) -> bool {
    forall|i: int, j: int| 0 <= i < j < t.len() ==> t[i] != t[j]
}

/// Scanning preserves entry distinctness.
pub proof fn lemma_scan_distinct(v: Val, t: Seq<Seq<char>>)
    requires
        tbl_distinct(t),
    ensures
        tbl_distinct(scan_val(v, t)),
    decreases v, 2int,
{
    match v {
        Val::Str(s) => {
            lemma_tbl_add_distinct(t, s);
        },
        Val::Arr(es) => {
            lemma_scan_list_distinct(es, t);
        },
        Val::Obj(fs) => {
            lemma_scan_keys_distinct(fs, t);
            lemma_scan_vals_distinct(fs, scan_keys(fs, t));
        },
        _ => {},
    }
}

pub proof fn lemma_tbl_add_distinct(t: Seq<Seq<char>>, s: Seq<char>)
    requires
        tbl_distinct(t),
    ensures
        tbl_distinct(tbl_add(t, s)),
{
    if !t.contains(s) {
        let r = tbl_add(t, s);
        assert forall|i: int, j: int| 0 <= i < j < r.len() implies r[i] != r[j] by {
            if j == t.len() {
                assert(r[i] == t[i]);
                if t[i] == s {
                    assert(t.contains(s));
                }
            } else {
                assert(r[i] == t[i] && r[j] == t[j]);
            }
        }
    }
}

pub proof fn lemma_scan_list_distinct(es: Seq<Val>, t: Seq<Seq<char>>)
    requires
        tbl_distinct(t),
    ensures
        tbl_distinct(scan_list(es, t)),
    decreases es, 1int,
{
    if es.len() > 0 {
        lemma_scan_distinct(es[0], t);
        lemma_scan_list_distinct(es.drop_first(), scan_val(es[0], t));
    }
}

pub proof fn lemma_scan_keys_distinct(fs: Seq<(Seq<char>, Val)>, t: Seq<Seq<char>>)
    requires
        tbl_distinct(t),
    ensures
        tbl_distinct(scan_keys(fs, t)),
    decreases fs.len(),
{
    if fs.len() > 0 {
        lemma_tbl_add_distinct(t, fs[0].0);
        lemma_scan_keys_distinct(fs.drop_first(), tbl_add(t, fs[0].0));
    }
}

pub proof fn lemma_scan_vals_distinct(fs: Seq<(Seq<char>, Val)>, t: Seq<Seq<char>>)
    requires
        tbl_distinct(t),
    ensures
        tbl_distinct(scan_vals(fs, t)),
    decreases fs, 1int,
{
    if fs.len() > 0 {
        lemma_scan_distinct(fs[0].1, t);
        lemma_scan_vals_distinct(fs.drop_first(), scan_val(fs[0].1, t));
    }
}

/// Every string of the value is already in canonical string form.
pub open spec fn strs_canonical(v: Val) -> bool
    decreases v,
{
    match v {
        Val::Str(s) => canon_str(s) == s,
        Val::Arr(es) => forall|i: int| 0 <= i < es.len() ==> strs_canonical(#[trigger] es[i]),
        Val::Obj(fs) => forall|i: int| 0 <= i < fs.len() ==> strs_canonical((#[trigger] fs[i]).1),
        _ => true,
    }
}

/// Inserting a pair whose key is not below any present key appends it.
pub proof fn lemma_insert_pair_append(p: (Seq<char>, Val), s: Seq<(Seq<char>, Val)>)
    requires
        forall|i: int| 0 <= i < s.len() ==> chars_le((#[trigger] s[i]).0, p.0),
    ensures
        insert_pair(p, s) =~= s.push(p),
    decreases s.len(),
{
    if s.len() > 0 {
        assert(chars_le(s[0].0, p.0));
        assert forall|i: int| 0 <= i < s.drop_first().len() implies chars_le(
            (#[trigger] s.drop_first()[i]).0,
            p.0,
        ) by {
            assert(s.drop_first()[i] == s[i + 1]);
        }
        lemma_insert_pair_append(p, s.drop_first());
    }
}

/// Sorting an already non-decreasing run changes nothing.
pub proof fn lemma_sort_sorted_id(s: Seq<(Seq<char>, Val)>)
    requires
        sorted_le(s),
    ensures
        sort_pairs(s) =~= s,
    decreases s.len(),
{
    if s.len() > 0 {
        assert(sorted_le(s.drop_last())) by {
            assert forall|i: int, j: int|
                0 <= i < j < s.drop_last().len() implies chars_le(
                (#[trigger] s.drop_last()[i]).0,
                (#[trigger] s.drop_last()[j]).0,
            ) by {
                assert(s.drop_last()[i] == s[i] && s.drop_last()[j] == s[j]);
            }
        }
        lemma_sort_sorted_id(s.drop_last());
        assert forall|i: int| 0 <= i < s.drop_last().len() implies chars_le(
            (#[trigger] s.drop_last()[i]).0,
            s.last().0,
        ) by {
            assert(s.drop_last()[i] == s[i]);
        }
        lemma_insert_pair_append(s.last(), s.drop_last());
    }
}

/// IDEMPOTENCE.  Canonicalizing twice changes nothing, for every value
/// whose strings are already in canonical string form (Unicode gives no
/// checkable ground to extend this to strings the first pass rewrites).
pub proof fn lemma_canonicalize_idempotent(v: Val)
    requires
        strs_canonical(v),
    ensures
        canon_val(canon_val(v)) == canon_val(v),
    decreases v,
{
    match v {
        Val::Str(s) => {},
        Val::Arr(es) => {
            lemma_canon_list_index(es);
            lemma_canon_list_index(canon_list(es));
            assert(canon_list(canon_list(es)) =~= canon_list(es)) by {
                assert forall|i: int|
                    0 <= i < es.len() implies #[trigger] canon_val(canon_val(es[i])) == canon_val(
                    es[i],
                ) by {
                    lemma_canonicalize_idempotent(es[i]);
                }
            }
        },
        Val::Obj(fs) => {
            let cf = canon_fields(fs);
            let sorted = sort_pairs(cf);
            lemma_canon_fields_index(fs);
            lemma_canon_fields_index(sorted);
            assert(canon_fields(sorted) =~= sorted) by {
                assert forall|i: int|
                    0 <= i < sorted.len() implies (#[trigger] sorted[i]).0 == sorted[i].0
                    && canon_val(sorted[i].1) == sorted[i].1 by {
                    lemma_sort_member(cf, i);
                    let w = choose|w: int| 0 <= w < cf.len() && cf[w] == sorted[i];
                    assert(cf[w].1 == canon_val(fs[w].1));
                    lemma_canonicalize_idempotent(fs[w].1);
                }
            }
            lemma_sort_pairs_sorted(cf);
            lemma_sort_sorted_id(sorted);
        },
        _ => {},
    }
}

/// Two key-sorted runs of the same fields are the same run.
pub proof fn lemma_sorted_multiset_unique(s1: Seq<(Seq<char>, Val)>, s2: Seq<(Seq<char>, Val)>)
    requires
        sorted_le(s1),
        sorted_le(s2),
        s1.to_multiset() == s2.to_multiset(),
        pair_keys(s1).no_duplicates(),
    ensures
        s1 =~= s2,
    decreases s1.len(),
{
    broadcast use vstd::seq_lib::group_to_multiset_ensures;

    s1.to_multiset_ensures();
    s2.to_multiset_ensures();
    if s1.len() == 0 {
        assert(s2.to_multiset().len() == 0);
        assert(s2 =~= s1);
    } else {
        assert(s2.len() == s1.len());
        // the two heads coincide
        assert(s2.contains(s1[0])) by {
            assert(s1.contains(s1[0]));
            assert(s1.to_multiset().count(s1[0]) > 0);
            assert(s2.to_multiset().count(s1[0]) == s1.to_multiset().count(s1[0]));
        }
        let w = choose|w: int| 0 <= w < s2.len() && s2[w] == s1[0];
        assert(s1.contains(s2[0])) by {
            assert(s2.contains(s2[0]));
            assert(s2.to_multiset().count(s2[0]) > 0);
            assert(s1.to_multiset().count(s2[0]) == s2.to_multiset().count(s2[0]));
        }
        let u = choose|u: int| 0 <= u < s1.len() && s1[u] == s2[0];
        assert(chars_le(s2[0].0, s1[0].0)) by {
            if w > 0 {
                assert(chars_le(s2[0].0, s2[w].0));
            }
        }
        assert(chars_le(s1[0].0, s2[0].0)) by {
            if u > 0 {
                assert(chars_le(s1[0].0, s1[u].0));
            }
        }
        assert(s1[0].0 == s2[0].0) by {
            lemma_chars_lt_total(s1[0].0, s2[0].0);
        }
        assert(s1[0] == s2[0]) by {
            if u > 0 {
                assert(pair_keys(s1)[u] == s1[u].0);
                assert(pair_keys(s1)[0] == s1[0].0);
                assert(pair_keys(s1)[u] != pair_keys(s1)[0]);
            }
        }
        // strip the heads and recurse
        let r1 = s1.drop_first();
        let r2 = s2.drop_first();
        assert(s1.remove(0) =~= r1);
        assert(s2.remove(0) =~= r2);
        assert(r1.to_multiset() == s1.to_multiset().remove(s1[0]));
        assert(r2.to_multiset() == s2.to_multiset().remove(s2[0]));
        assert(sorted_le(r1) && sorted_le(r2)) by {
            assert forall|i: int, j: int| 0 <= i < j < r1.len() implies chars_le(
                (#[trigger] r1[i]).0,
                (#[trigger] r1[j]).0,
            ) by {
                assert(r1[i] == s1[i + 1] && r1[j] == s1[j + 1]);
            }
            assert forall|i: int, j: int| 0 <= i < j < r2.len() implies chars_le(
                (#[trigger] r2[i]).0,
                (#[trigger] r2[j]).0,
            ) by {
                assert(r2[i] == s2[i + 1] && r2[j] == s2[j + 1]);
            }
        }
        assert(pair_keys(r1).no_duplicates()) by {
            assert forall|i: int, j: int|
                0 <= i < pair_keys(r1).len() && 0 <= j < pair_keys(r1).len() && i
                != j implies pair_keys(r1)[i] != pair_keys(r1)[j] by {
                assert(pair_keys(r1)[i] == s1[i + 1].0 && pair_keys(r1)[j] == s1[j + 1].0);
                assert(pair_keys(s1)[i + 1] != pair_keys(s1)[j + 1]);
            }
        }
        lemma_sorted_multiset_unique(r1, r2);
        assert forall|i: int| 0 <= i < s1.len() implies s1[i] == s2[i] by {
            if i > 0 {
                assert(s1[i] == r1[i - 1]);
                assert(s2[i] == r2[i - 1]);
            }
        }
        assert(s1 =~= s2);
    }
}

/// KEY-ORDER INVARIANCE.  Objects whose canonicalized fields are the same
/// collection, in any insertion order, canonicalize — and therefore encode —
/// to the same result.
pub proof fn lemma_key_order_invariance(fs1: Seq<(Seq<char>, Val)>, fs2: Seq<(Seq<char>, Val)>)
    requires
        canon_fields(fs1).to_multiset() == canon_fields(fs2).to_multiset(),
        forall|i: int, j: int|
            0 <= i < j < fs1.len() ==> (#[trigger] fs1[i]).0 != (#[trigger] fs1[j]).0,
    ensures
        canon_val(Val::Obj(fs1)) == canon_val(Val::Obj(fs2)),
        doc_of(Val::Obj(fs1)) == doc_of(Val::Obj(fs2)),
{
    let c1 = canon_fields(fs1);
    let c2 = canon_fields(fs2);
    lemma_canon_fields_index(fs1);
    lemma_canon_fields_index(fs2);
    lemma_sort_pairs_sorted(c1);
    lemma_sort_pairs_sorted(c2);
    lemma_sort_pairs_multiset_full(c1);
    lemma_sort_pairs_multiset_full(c2);
    // the sorted run of fs1 has distinct keys
    assert forall|i: int, j: int|
        0 <= i < j < c1.len() implies (#[trigger] c1[i]).0 != (#[trigger] c1[j]).0 by {
        assert(c1[i].0 == fs1[i].0 && c1[j].0 == fs1[j].0);
    }
    lemma_sort_pairs_strict(c1);
    let t1 = sort_pairs(c1);
    let t2 = sort_pairs(c2);
    assert(pair_keys(t1).no_duplicates()) by {
        assert forall|i: int, j: int|
            0 <= i < pair_keys(t1).len() && 0 <= j < pair_keys(t1).len() && i != j implies pair_keys(
            t1,
        )[i] != pair_keys(t1)[j] by {
            if i < j {
                assert(chars_lt(t1[i].0, t1[j].0));
                lemma_chars_lt_total(t1[i].0, t1[j].0);
            } else {
                assert(chars_lt(t1[j].0, t1[i].0));
                lemma_chars_lt_total(t1[j].0, t1[i].0);
            }
        }
    }
    lemma_sorted_multiset_unique(t1, t2);
}

/// Inserting keeps the fields themselves, as a multiset.
pub proof fn lemma_insert_pair_multiset_full(p: (Seq<char>, Val), s: Seq<(Seq<char>, Val)>)
    ensures
        insert_pair(p, s).to_multiset() =~= s.to_multiset().insert(p),
    decreases s.len(),
{
    broadcast use vstd::seq_lib::group_to_multiset_ensures;

    s.to_multiset_ensures();
    insert_pair(p, s).to_multiset_ensures();
    if s.len() == 0 {
        assert(seq![p] =~= Seq::<(Seq<char>, Val)>::empty().push(p));
        Seq::<(Seq<char>, Val)>::empty().to_multiset_ensures();
    } else if chars_le(s[0].0, p.0) {
        lemma_insert_pair_multiset_full(p, s.drop_first());
        let rest = insert_pair(p, s.drop_first());
        assert(insert_pair(p, s) =~= seq![s[0]] + rest);
        vstd::seq_lib::lemma_multiset_commutative(seq![s[0]], rest);
        assert(s =~= seq![s[0]] + s.drop_first());
        vstd::seq_lib::lemma_multiset_commutative(seq![s[0]], s.drop_first());
        assert(seq![s[0]] =~= Seq::<(Seq<char>, Val)>::empty().push(s[0]));
        Seq::<(Seq<char>, Val)>::empty().to_multiset_ensures();
        assert(insert_pair(p, s).to_multiset() =~= s.to_multiset().insert(p));
    } else {
        assert(insert_pair(p, s) =~= seq![p] + s);
        vstd::seq_lib::lemma_multiset_commutative(seq![p], s);
        assert(seq![p] =~= Seq::<(Seq<char>, Val)>::empty().push(p));
        Seq::<(Seq<char>, Val)>::empty().to_multiset_ensures();
        assert(insert_pair(p, s).to_multiset() =~= s.to_multiset().insert(p));
    }
}

/// Sorting keeps the fields themselves, as a multiset.
pub proof fn lemma_sort_pairs_multiset_full(s: Seq<(Seq<char>, Val)>)
    ensures
        sort_pairs(s).to_multiset() =~= s.to_multiset(),
    decreases s.len(),
{
    broadcast use vstd::seq_lib::group_to_multiset_ensures;

    if s.len() > 0 {
        lemma_sort_pairs_multiset_full(s.drop_last());
        lemma_insert_pair_multiset_full(s.last(), sort_pairs(s.drop_last()));
        s.to_multiset_ensures();
        s.drop_last().to_multiset_ensures();
        assert(s =~= s.drop_last().push(s.last()));
    }
}

} // verus!
