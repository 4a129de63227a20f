//! The TENS v2 binary codec.
//!
//! A document is a 5-byte header (`"TENS"` + version `0x02`), a dictionary
//! (varint count, then length-prefixed UTF-8 entries in first-seen order),
//! and one recursively encoded opcode tree.  Encoding scans the canonical
//! value depth-first — an object's sorted keys before its values — so the
//! dictionary ids are stable and minimal.

use vstd::prelude::*;
use vstd::utf8::encode_utf8;
use crate::canon::{canon_val, canonicalize};
use crate::floatbits::{float_int, f64_bits_of_i64, float_as_int, f64_bits_from_i64};
use crate::strtab::{StringTable, tbl_add, tbl_find, tbl_id, lemma_tbl_find};
use crate::value::{Value, Val, val_of, vals_of, pairs_of, lemma_vals_of_index, lemma_pairs_of_index};
use crate::varint::{varint_of, varint_read, encode_varint, decode_varint, lemma_varint_of_len, lemma_varint_roundtrip};
use crate::schema::SchemaRegistry;

verus! {

/// Little-endian bytes of `v`, `k` bytes wide.
pub open spec fn le_bytes(v: nat, k: nat) -> Seq<u8>
    decreases k,
{
    if k == 0 {
        Seq::empty()
    } else {
        seq![(v % 256) as u8] + le_bytes(v / 256, (k - 1) as nat)
    }
}

/// The value read back from `k` little-endian bytes at `pos`.
pub open spec fn le_read(b: Seq<u8>, pos: int, k: nat) -> nat
    decreases k,
{
    if k == 0 {
        0
    } else {
        (b[pos] + 256 * le_read(b, pos + 1, (k - 1) as nat)) as nat
    }
}

pub open spec fn u32_of_i32(i: int) -> nat {
    if i >= 0 {
        i as nat
    } else {
        (i + 0x100000000) as nat
    }
}

pub open spec fn i32_of_u32(u: nat) -> int {
    if u < 0x80000000 {
        u as int
    } else {
        u - 0x100000000
    }
}

pub open spec fn byte_of_i8(i: int) -> u8 {
    if i >= 0 {
        i as u8
    } else {
        (i + 256) as u8
    }
}

pub open spec fn i8_of_byte(b: u8) -> int {
    if b < 128 {
        b as int
    } else {
        b - 256
    }
}

/// The dictionary id of `s`: its first index in `d`.
pub open spec fn dict_id(d: Seq<Seq<char>>, s: Seq<char>) -> nat {
    if tbl_find(d, s) >= 0 {
        tbl_find(d, s) as nat
    } else {
        d.len()
    }
}

/// The depth-first string scan: every string value and every object key of
/// `v`, added to `t` in traversal order (an object's keys before its values).
pub open spec fn scan_val(v: Val, t: Seq<Seq<char>>) -> Seq<Seq<char>>
    decreases v, 2int,
{
    match v {
        Val::Str(s) => tbl_add(t, s),
        Val::Arr(es) => scan_list(es, t),
        Val::Obj(fs) => scan_vals(fs, scan_keys(fs, t)),
        _ => t,
    }
}

pub open spec fn scan_list(es: Seq<Val>, t: Seq<Seq<char>>) -> Seq<Seq<char>>
    decreases es, 1int,
{
    if es.len() == 0 {
        t
    } else {
        scan_list(es.drop_first(), scan_val(es[0], t))
    }
}

pub open spec fn scan_keys(fs: Seq<(Seq<char>, Val)>, t: Seq<Seq<char>>) -> Seq<Seq<char>>
    decreases fs.len(),
{
    if fs.len() == 0 {
        t
    } else {
        scan_keys(fs.drop_first(), tbl_add(t, fs[0].0))
    }
}

pub open spec fn scan_vals(fs: Seq<(Seq<char>, Val)>, t: Seq<Seq<char>>) -> Seq<Seq<char>>
    decreases fs, 1int,
{
    if fs.len() == 0 {
        t
    } else {
        scan_vals(fs.drop_first(), scan_val(fs[0].1, t))
    }
}

/// The integer opcode encoding: `INT8` for one signed byte, `INT32` for the
/// 32-bit range, else `FLOAT64` of the nearest double.
pub open spec fn enc_int(i: i64) -> Seq<u8> {
    if -128 <= i <= 127 {
        seq![3u8, byte_of_i8(i as int)]
    } else if -0x80000000 <= i <= 0x7fffffff {
        seq![5u8] + le_bytes(u32_of_i32(i as int), 4)
    } else {
        seq![6u8] + le_bytes(f64_bits_of_i64(i) as nat, 8)
    }
}

/// The opcode bytes of an int-like double, re-classified as an integer.
pub open spec fn enc_small_int(n: i64) -> Seq<u8> {
    if -128 <= n <= 127 {
        seq![3u8, byte_of_i8(n as int)]
    } else {
        seq![5u8] + le_bytes(u32_of_i32(n as int), 4)
    }
}

/// The opcode tree of a value against dictionary `d`.
pub open spec fn enc_val(v: Val, d: Seq<Seq<char>>) -> Seq<u8>
    decreases v, 2int,
{
    match v {
        Val::Null => seq![0u8],
        Val::Bool(b) => if b {
            seq![1u8]
        } else {
            seq![2u8]
        },
        Val::Int(i) => enc_int(i),
        Val::Float(bits) => match float_int(bits) {
            Option::Some(n) => enc_small_int(n),
            Option::None => seq![6u8] + le_bytes(bits as nat, 8),
        },
        Val::Str(s) => seq![7u8] + varint_of(dict_id(d, s)),
        Val::Arr(es) => seq![8u8] + varint_of(es.len()) + enc_list(es, d),
        Val::Obj(fs) => seq![9u8] + varint_of(fs.len()) + enc_fields(fs, d),
    }
}

pub open spec fn enc_list(es: Seq<Val>, d: Seq<Seq<char>>) -> Seq<u8>
    decreases es, 1int,
{
    if es.len() == 0 {
        Seq::empty()
    } else {
        enc_val(es[0], d) + enc_list(es.drop_first(), d)
    }
}

pub open spec fn enc_fields(fs: Seq<(Seq<char>, Val)>, d: Seq<Seq<char>>) -> Seq<u8>
    decreases fs, 1int,
{
    if fs.len() == 0 {
        Seq::empty()
    } else {
        varint_of(dict_id(d, fs[0].0)) + enc_val(fs[0].1, d) + enc_fields(fs.drop_first(), d)
    }
}

/// The dictionary section: each entry length-prefixed, in order.
pub open spec fn dict_bytes(d: Seq<Seq<char>>) -> Seq<u8>
    decreases d.len(),
{
    if d.len() == 0 {
        Seq::empty()
    } else {
        dict_bytes(d.drop_last()) + varint_of(encode_utf8(d.last()).len()) + encode_utf8(d.last())
    }
}

/// `"TENS"` and the version byte.
pub open spec fn header_bytes() -> Seq<u8> {
    seq![0x54u8, 0x45u8, 0x4eu8, 0x53u8, 0x02u8]
}

/// The whole document for a value.
pub open spec fn doc_of(v: Val) -> Seq<u8> {
    let c = canon_val(v);
    let d = scan_val(c, Seq::empty());
    header_bytes() + varint_of(d.len()) + dict_bytes(d) + enc_val(c, d)
}

/// Machine limits: every collection and every string of the (canonical)
/// value fits the 32-bit counts the wire format carries.
pub open spec fn sizes_ok(v: Val) -> bool
    decreases v,
{
    match v {
        Val::Str(s) => encode_utf8(s).len() < 0x100000000,
        Val::Arr(es) => es.len() < 0x100000000 && (forall|i: int|
            0 <= i < es.len() ==> sizes_ok(#[trigger] es[i])),
        Val::Obj(fs) => fs.len() < 0x100000000 && (forall|i: int|
            0 <= i < fs.len() ==> encode_utf8((#[trigger] fs[i]).0).len() < 0x100000000 && sizes_ok(
                fs[i].1,
            )),
        _ => true,
    }
}

/// Every string and key of `v` is in `d`.
pub open spec fn strs_in(v: Val, d: Seq<Seq<char>>) -> bool
    decreases v,
{
    match v {
        Val::Str(s) => d.contains(s),
        Val::Arr(es) => forall|i: int| 0 <= i < es.len() ==> strs_in(#[trigger] es[i], d),
        Val::Obj(fs) => forall|i: int|
            0 <= i < fs.len() ==> d.contains((#[trigger] fs[i]).0) && strs_in(fs[i].1, d),
        _ => true,
    }
}

/// All entries short enough for a 32-bit length prefix.
pub open spec fn entries_ok(t: Seq<Seq<char>>) -> bool {
    forall|i: int| 0 <= i < t.len() ==> encode_utf8(#[trigger] t[i]).len() < 0x100000000
}

/// Scanning never removes entries.
pub proof fn lemma_scan_keeps(v: Val, t: Seq<Seq<char>>)
    ensures
        t.len() <= scan_val(v, t).len(),
        forall|s: Seq<char>| t.contains(s) ==> #[trigger] scan_val(v, t).contains(s),
        forall|i: int| 0 <= i < t.len() ==> #[trigger] scan_val(v, t)[i] == t[i],
    decreases v, 2int,
{
    match v {
        Val::Str(s) => {
            lemma_tbl_add_keeps(t, s);
        },
        Val::Arr(es) => {
            lemma_scan_list_keeps(es, t);
        },
        Val::Obj(fs) => {
            lemma_scan_keys_keeps(fs, t);
            lemma_scan_vals_keeps(fs, scan_keys(fs, t));
        },
        _ => {},
    }
}

pub proof fn lemma_tbl_add_keeps(t: Seq<Seq<char>>, s: Seq<char>)
    ensures
        t.len() <= tbl_add(t, s).len(),
        forall|x: Seq<char>| t.contains(x) ==> #[trigger] tbl_add(t, s).contains(x),
        forall|i: int| 0 <= i < t.len() ==> #[trigger] tbl_add(t, s)[i] == t[i],
        tbl_add(t, s).contains(s),
{
    if !t.contains(s) {
        assert(tbl_add(t, s)[t.len() as int] == s);
        assert forall|x: Seq<char>| t.contains(x) implies #[trigger] tbl_add(t, s).contains(x) by {
            let i = choose|i: int| 0 <= i < t.len() && t[i] == x;
            assert(tbl_add(t, s)[i] == x);
        }
    }
}

pub proof fn lemma_scan_list_keeps(es: Seq<Val>, t: Seq<Seq<char>>)
    ensures
        t.len() <= scan_list(es, t).len(),
        forall|s: Seq<char>| t.contains(s) ==> #[trigger] scan_list(es, t).contains(s),
        forall|i: int| 0 <= i < t.len() ==> #[trigger] scan_list(es, t)[i] == t[i],
    decreases es, 1int,
{
    if es.len() > 0 {
        lemma_scan_keeps(es[0], t);
        lemma_scan_list_keeps(es.drop_first(), scan_val(es[0], t));
    }
}

pub proof fn lemma_scan_keys_keeps(fs: Seq<(Seq<char>, Val)>, t: Seq<Seq<char>>)
    ensures
        t.len() <= scan_keys(fs, t).len(),
        forall|s: Seq<char>| t.contains(s) ==> #[trigger] scan_keys(fs, t).contains(s),
        forall|i: int| 0 <= i < t.len() ==> #[trigger] scan_keys(fs, t)[i] == t[i],
    decreases fs.len(),
{
    if fs.len() > 0 {
        lemma_tbl_add_keeps(t, fs[0].0);
        lemma_scan_keys_keeps(fs.drop_first(), tbl_add(t, fs[0].0));
    }
}

pub proof fn lemma_scan_vals_keeps(fs: Seq<(Seq<char>, Val)>, t: Seq<Seq<char>>)
    ensures
        t.len() <= scan_vals(fs, t).len(),
        forall|s: Seq<char>| t.contains(s) ==> #[trigger] scan_vals(fs, t).contains(s),
        forall|i: int| 0 <= i < t.len() ==> #[trigger] scan_vals(fs, t)[i] == t[i],
    decreases fs, 1int,
{
    if fs.len() > 0 {
        lemma_scan_keeps(fs[0].1, t);
        lemma_scan_vals_keeps(fs.drop_first(), scan_val(fs[0].1, t));
    }
}

/// After the scan, every string of `v` is in the table.
pub proof fn lemma_scan_covers(v: Val, t: Seq<Seq<char>>)
    ensures
        strs_in(v, scan_val(v, t)),
    decreases v, 2int,
{
    match v {
        Val::Str(s) => {
            lemma_tbl_add_keeps(t, s);
        },
        Val::Arr(es) => {
            lemma_scan_list_covers(es, t);
        },
        Val::Obj(fs) => {
            lemma_scan_obj_covers(fs, t);
        },
        _ => {},
    }
}

pub proof fn lemma_scan_list_covers(es: Seq<Val>, t: Seq<Seq<char>>)
    ensures
        forall|i: int| 0 <= i < es.len() ==> strs_in(#[trigger] es[i], scan_list(es, t)),
    decreases es, 1int,
{
    if es.len() > 0 {
        lemma_scan_covers(es[0], t);
        let t1 = scan_val(es[0], t);
        lemma_scan_list_covers(es.drop_first(), t1);
        lemma_scan_list_keeps(es.drop_first(), t1);
        lemma_strs_in_mono(es[0], t1, scan_list(es.drop_first(), t1));
        assert forall|i: int|
            0 <= i < es.len() implies strs_in(#[trigger] es[i], scan_list(es, t)) by {
            if i > 0 {
                assert(es.drop_first()[i - 1] == es[i]);
            }
        }
    }
}

pub proof fn lemma_scan_obj_covers(fs: Seq<(Seq<char>, Val)>, t: Seq<Seq<char>>)
    ensures
        forall|i: int|
            0 <= i < fs.len() ==> scan_vals(fs, scan_keys(fs, t)).contains((#[trigger] fs[i]).0)
                && strs_in(fs[i].1, scan_vals(fs, scan_keys(fs, t))),
    decreases fs, 2int,
{
    let tk = scan_keys(fs, t);
    lemma_scan_keys_covers(fs, t);
    lemma_scan_vals_keeps(fs, tk);
    lemma_scan_vals_covers(fs, tk);
}

pub proof fn lemma_scan_keys_covers(fs: Seq<(Seq<char>, Val)>, t: Seq<Seq<char>>)
    ensures
        forall|i: int| 0 <= i < fs.len() ==> scan_keys(fs, t).contains((#[trigger] fs[i]).0),
    decreases fs.len(),
{
    if fs.len() > 0 {
        lemma_tbl_add_keeps(t, fs[0].0);
        lemma_scan_keys_covers(fs.drop_first(), tbl_add(t, fs[0].0));
        lemma_scan_keys_keeps(fs.drop_first(), tbl_add(t, fs[0].0));
        assert forall|i: int|
            0 <= i < fs.len() implies scan_keys(fs, t).contains((#[trigger] fs[i]).0) by {
            if i > 0 {
                assert(fs.drop_first()[i - 1] == fs[i]);
            }
        }
    }
}

pub proof fn lemma_scan_vals_covers(fs: Seq<(Seq<char>, Val)>, t: Seq<Seq<char>>)
    ensures
        forall|i: int| 0 <= i < fs.len() ==> strs_in((#[trigger] fs[i]).1, scan_vals(fs, t)),
    decreases fs, 1int,
{
    if fs.len() > 0 {
        lemma_scan_covers(fs[0].1, t);
        let t1 = scan_val(fs[0].1, t);
        lemma_scan_vals_covers(fs.drop_first(), t1);
        lemma_scan_vals_keeps(fs.drop_first(), t1);
        lemma_strs_in_mono(fs[0].1, t1, scan_vals(fs.drop_first(), t1));
        assert forall|i: int|
            0 <= i < fs.len() implies strs_in((#[trigger] fs[i]).1, scan_vals(fs, t)) by {
            if i > 0 {
                assert(fs.drop_first()[i - 1] == fs[i]);
            }
        }
    }
}

/// `strs_in` survives adding entries.
pub proof fn lemma_strs_in_mono(v: Val, d: Seq<Seq<char>>, d2: Seq<Seq<char>>)
    requires
        strs_in(v, d),
        forall|s: Seq<char>| d.contains(s) ==> #[trigger] d2.contains(s),
    ensures
        strs_in(v, d2),
    decreases v,
{
    match v {
        Val::Arr(es) => {
            assert forall|i: int| 0 <= i < es.len() implies strs_in(#[trigger] es[i], d2) by {
                lemma_strs_in_mono(es[i], d, d2);
            }
        },
        Val::Obj(fs) => {
            assert forall|i: int|
                0 <= i < fs.len() implies d2.contains((#[trigger] fs[i]).0) && strs_in(
                fs[i].1,
                d2,
            ) by {
                lemma_strs_in_mono(fs[i].1, d, d2);
            }
        },
        _ => {},
    }
}

/// Encoding a list splits over concatenation.
pub proof fn lemma_enc_list_concat(a: Seq<Val>, b: Seq<Val>, d: Seq<Seq<char>>)
    ensures
        enc_list(a + b, d) == enc_list(a, d) + enc_list(b, d),
    decreases a.len(),
{
    if a.len() == 0 {
        assert(a + b =~= b);
        assert(enc_list(a, d) + enc_list(b, d) =~= enc_list(b, d));
    } else {
        lemma_enc_list_concat(a.drop_first(), b, d);
        assert((a + b).drop_first() =~= a.drop_first() + b);
        assert((a + b)[0] == a[0]);
        assert(enc_val(a[0], d) + (enc_list(a.drop_first(), d) + enc_list(b, d)) =~= (enc_val(
            a[0],
            d,
        ) + enc_list(a.drop_first(), d)) + enc_list(b, d));
    }
}

pub proof fn lemma_enc_fields_concat(a: Seq<(Seq<char>, Val)>, b: Seq<(Seq<char>, Val)>, d: Seq<
    Seq<char>>)
    ensures
        enc_fields(a + b, d) == enc_fields(a, d) + enc_fields(b, d),
    decreases a.len(),
{
    if a.len() == 0 {
        assert(a + b =~= b);
        assert(enc_fields(a, d) + enc_fields(b, d) =~= enc_fields(b, d));
    } else {
        lemma_enc_fields_concat(a.drop_first(), b, d);
        assert((a + b).drop_first() =~= a.drop_first() + b);
        assert((a + b)[0] == a[0]);
        assert(varint_of(dict_id(d, a[0].0)) + enc_val(a[0].1, d) + (enc_fields(a.drop_first(), d)
            + enc_fields(b, d)) =~= (varint_of(dict_id(d, a[0].0)) + enc_val(a[0].1, d)
            + enc_fields(a.drop_first(), d)) + enc_fields(b, d));
    }
}

/// The binary encoder: owns the string table, reset on each encode, and the
/// registry of the schema-aware extension, which outlives encodes.
pub struct TensEncoder {
    pub registry: SchemaRegistry,
    pub string_table: StringTable,
}

impl TensEncoder {
    /// The current dictionary contents.
    pub open spec fn table_view(&self) -> Seq<Seq<char>> {
        self.string_table@
    }

    pub open spec fn wf(&self) -> bool {
        self.string_table.wf()
    }

    pub fn new() -> (r: TensEncoder)
        ensures
            r.wf(),
            r.table_view() == Seq::<Seq<char>>::empty(),
            r.registry@ == Seq::<crate::schema::Schema>::empty(),
            r.registry.wf(),
    {
        TensEncoder { registry: SchemaRegistry::new(), string_table: StringTable::new() }
    }

    /// Encode a value into TENS v2 binary bytes: header, dictionary, opcode
    /// tree.  The output is a function of the value alone.
    #[verifier::rlimit(50)]
    #[verifier::loop_isolation(false)]
    pub fn encode(&mut self, value: &Value) -> (out: Vec<u8>)
        requires
            old(self).wf(),
            sizes_ok(canon_val(value@)),
            scan_val(canon_val(value@), Seq::<Seq<char>>::empty()).len() < 0x100000000,
        ensures
            final(self).wf(),
            out@ == doc_of(value@),
            final(self).table_view() == scan_val(canon_val(value@), Seq::<Seq<char>>::empty()),
            final(self).registry == old(self).registry,
    {
        let canonical = canonicalize(value);
        let ghost c = canon_val(value@);
        let ghost d = scan_val(c, Seq::<Seq<char>>::empty());
        // scan pass: collect all strings in traversal order
        self.string_table = StringTable::new();
        self.scan_strings(&canonical);
        proof {
            lemma_scan_covers(c, Seq::<Seq<char>>::empty());
            lemma_scan_entries_ok(c, Seq::<Seq<char>>::empty());
        }
        // emit pass
        let mut out: Vec<u8> = Vec::new();
        out.push(0x54);
        out.push(0x45);
        out.push(0x4e);
        out.push(0x53);
        out.push(0x02);
        proof {
            assert(out@ =~= header_bytes());
        }
        let n = self.string_table.len();
        let mut count_bytes = encode_varint(n as u32);
        out.append(&mut count_bytes);
        proof {
            assert(out@ =~= header_bytes() + varint_of(d.len()));
        }
        let ghost base = out@;
        let entries = self.string_table.entries();
        let mut i: usize = 0;
        while i < entries.len()
            invariant
                0 <= i <= entries@.len(),
                entries@.len() == d.len(),
                forall|k: int| 0 <= k < d.len() ==> (#[trigger] entries@[k])@ == d[k],
                entries_ok(d),
                out@ == base + dict_bytes(d.take(i as int)),
            decreases entries@.len() - i,
        {
            let s = &entries[i];
            let bytes = s.as_str().as_bytes();
            let mut len_bytes = encode_varint(bytes.len() as u32);
            out.append(&mut len_bytes);
            out.extend_from_slice(bytes);
            proof {
                assert(bytes@ == encode_utf8(d[i as int]));
                assert(d.take(i as int + 1).drop_last() =~= d.take(i as int));
                assert(d.take(i as int + 1).last() == d[i as int]);
                assert(out@ =~= base + dict_bytes(d.take(i as int + 1)));
            }
            i = i + 1;
        }
        proof {
            assert(d.take(d.len() as int) =~= d);
        }
        // the opcode tree, against the now-final table
        self.encode_value(&canonical, &mut out);
        proof {
            assert(out@ =~= doc_of(value@));
        }
        out
    }

    /// The emit pass for one value: the table is final, every string of the
    /// value is already interned, and no new ids are handed out.
    #[verifier::loop_isolation(false)]
    fn encode_value(&mut self, value: &Value, out: &mut Vec<u8>)
        requires
            old(self).wf(),
            old(self).table_view().len() < 0x100000000,
            strs_in(value@, old(self).table_view()),
            sizes_ok(value@),
        ensures
            final(self).wf(),
            final(self).table_view() == old(self).table_view(),
            final(self).registry == old(self).registry,
            final(out)@ == old(out)@ + enc_val(value@, old(self).table_view()),
        decreases value,
    {
        let ghost d = self.table_view();
        match value {
            Value::Null => {
                out.push(0);
                proof {
                    assert(out@ =~= old(out)@ + enc_val(value@, d));
                }
            },
            Value::Bool(b) => {
                if *b {
                    out.push(1);
                } else {
                    out.push(2);
                }
                proof {
                    assert(out@ =~= old(out)@ + enc_val(value@, d));
                }
            },
            Value::Int(i) => {
                emit_int(*i, out);
            },
            Value::Float(bits) => {
                proof {
                    crate::floatbits::lemma_float_int_range(*bits);
                }
                match float_as_int(*bits) {
                    Option::Some(n) => {
                        if -128 <= n && n <= 127 {
                            out.push(3);
                            let byte: u8 = if n >= 0 {
                                n as u8
                            } else {
                                (n + 256) as u8
                            };
                            out.push(byte);
                            proof {
                                assert(out@ =~= old(out)@ + enc_val(value@, d));
                            }
                        } else {
                            out.push(5);
                            let u: u32 = if n >= 0 {
                                n as u32
                            } else {
                                (n + 0x100000000) as u32
                            };
                            push_le32(u, out);
                            proof {
                                assert(u as nat == u32_of_i32(n as int));
                                assert(enc_val(value@, d) == enc_small_int(n));
                                assert(out@ =~= old(out)@ + enc_val(value@, d));
                            }
                        }
                    },
                    Option::None => {
                        out.push(6);
                        push_le64(*bits, out);
                        proof {
                            assert(out@ =~= old(out)@ + enc_val(value@, d));
                        }
                    },
                }
            },
            Value::Str(s) => {
                out.push(7);
                let id = self.string_table.add(s.as_str());
                proof {
                    lemma_tbl_find(d, s@);
                    assert(id as nat == dict_id(d, s@));
                }
                let mut vb = encode_varint(id);
                out.append(&mut vb);
                proof {
                    assert(out@ =~= old(out)@ + enc_val(value@, d));
                }
            },
            Value::Arr(a) => {
                let ghost es = vals_of(a@);
                proof {
                    lemma_vals_of_index(a@);
                }
                out.push(8);
                let mut vb = encode_varint(a.len() as u32);
                out.append(&mut vb);
                let ghost base = out@;
                let mut i: usize = 0;
                while i < a.len()
                    invariant
                        0 <= i <= a@.len(),
                        es == vals_of(a@),
                        es.len() == a@.len(),
                        value@ == Val::Arr(es),
                        self.wf(),
                        self.table_view() == d,
                        self.registry == old(self).registry,
                        d.len() < 0x100000000,
                        strs_in(value@, d),
                        sizes_ok(value@),
                        out@ == base + enc_list(es.take(i as int), d),
                    decreases a@.len() - i,
                {
                    proof {
                        lemma_vals_of_index(a@);
                        assert(strs_in(es[i as int], d));
                        assert(sizes_ok(es[i as int]));
                        assert(decreases_to!(*value => a@[i as int])) by {
                            assert(*value == Value::Arr(*a));
                            assert(decreases_to!(*value => (*value)->Arr_0));
                            assert((*value)->Arr_0 == *a);
                            assert(decreases_to!(*a => a@));
                            assert(decreases_to!(a@ => a@[i as int]));
                        }
                    }
                    self.encode_value(&a[i], out);
                    proof {
                        assert(es.take(i as int + 1) =~= es.take(i as int) + seq![es[i as int]]);
                        lemma_enc_list_concat(es.take(i as int), seq![es[i as int]], d);
                        assert(enc_list(Seq::<Val>::empty(), d) =~= Seq::<u8>::empty());
                        assert(enc_list(seq![es[i as int]], d) =~= enc_val(es[i as int], d)) by {
                            assert(seq![es[i as int]].drop_first() =~= Seq::<Val>::empty());
                            assert(enc_list(Seq::<Val>::empty(), d) =~= Seq::<u8>::empty());
                        }
                        assert(out@ =~= base + enc_list(es.take(i as int + 1), d));
                    }
                    i = i + 1;
                }
                proof {
                    assert(es.take(es.len() as int) =~= es);
                    assert(out@ =~= old(out)@ + enc_val(value@, d));
                }
            },
            Value::Obj(fs) => {
                let ghost fv = pairs_of(fs@);
                proof {
                    lemma_pairs_of_index(fs@);
                }
                out.push(9);
                let mut vb = encode_varint(fs.len() as u32);
                out.append(&mut vb);
                let ghost base = out@;
                let mut j: usize = 0;
                while j < fs.len()
                    invariant
                        0 <= j <= fs@.len(),
                        fv == pairs_of(fs@),
                        fv.len() == fs@.len(),
                        value@ == Val::Obj(fv),
                        self.wf(),
                        self.table_view() == d,
                        self.registry == old(self).registry,
                        d.len() < 0x100000000,
                        strs_in(value@, d),
                        sizes_ok(value@),
                        out@ == base + enc_fields(fv.take(j as int), d),
                    decreases fs@.len() - j,
                {
                    proof {
                        lemma_pairs_of_index(fs@);
                        assert(d.contains(fv[j as int].0));
                        assert(strs_in(fv[j as int].1, d));
                        assert(sizes_ok(fv[j as int].1));
                        lemma_tbl_find(d, fv[j as int].0);
                    }
                    let key_id = self.string_table.add(fs[j].0.as_str());
                    let mut kb = encode_varint(key_id);
                    out.append(&mut kb);
                    proof {
                        assert(key_id as nat == dict_id(d, fv[j as int].0));
                        assert(decreases_to!(*value => fs@[j as int].1)) by {
                            assert(*value == Value::Obj(*fs));
                            assert(decreases_to!(*value => (*value)->Obj_0));
                            assert((*value)->Obj_0 == *fs);
                            assert(decreases_to!(*fs => fs@));
                            assert(decreases_to!(fs@ => fs@[j as int]));
                            assert(decreases_to!(fs@[j as int] => fs@[j as int].1));
                        }
                    }
                    self.encode_value(&fs[j].1, out);
                    proof {
                        assert(fv.take(j as int + 1) =~= fv.take(j as int) + seq![fv[j as int]]);
                        lemma_enc_fields_concat(fv.take(j as int), seq![fv[j as int]], d);
                        assert(enc_fields(Seq::<(Seq<char>, Val)>::empty(), d) =~= Seq::<
                            u8,
                        >::empty());
                        assert(enc_fields(seq![fv[j as int]], d) =~= varint_of(
                            dict_id(d, fv[j as int].0),
                        ) + enc_val(fv[j as int].1, d)) by {
                            assert(seq![fv[j as int]].drop_first() =~= Seq::<
                                (Seq<char>, Val),
                            >::empty());
                            assert(enc_fields(Seq::<(Seq<char>, Val)>::empty(), d) =~= Seq::<
                                u8,
                            >::empty());
                        }
                        assert(out@ =~= base + enc_fields(fv.take(j as int + 1), d));
                    }
                    j = j + 1;
                }
                proof {
                    assert(fv.take(fv.len() as int) =~= fv);
                    assert(out@ =~= old(out)@ + enc_val(value@, d));
                }
            },
        }
    }

    /// The string table entries of the last encode, for inspection.
    pub fn string_table_entries(&self) -> (r: &[String])
        ensures
            r@.len() == self.table_view().len(),
            forall|i: int| 0 <= i < r@.len() ==> r@[i]@ == self.table_view()[i],
    {
        self.string_table.entries()
    }

    /// The scan pass: intern every string and key, depth first, an object's
    /// keys before its values.
    #[verifier::loop_isolation(false)]
    fn scan_strings(&mut self, value: &Value)
        requires
            old(self).wf(),
            scan_val(value@, old(self).table_view()).len() < 0x100000000,
        ensures
            final(self).wf(),
            final(self).table_view() == scan_val(value@, old(self).table_view()),
            final(self).registry == old(self).registry,
        decreases value,
    {
        let ghost t0 = self.table_view();
        match value {
            Value::Str(s) => {
                proof {
                    assert(value@ == Val::Str(s@));
                    assert(scan_val(value@, t0) == tbl_add(t0, s@));
                    lemma_scan_keeps(value@, t0);
                }
                self.string_table.add(s.as_str());
            },
            Value::Arr(a) => {
                proof {
                    lemma_vals_of_index(a@);
                    assert(value@ == Val::Arr(vals_of(a@)));
                    assert(scan_val(value@, t0) == scan_list(vals_of(a@), t0));
                    assert(vals_of(a@).skip(0) =~= vals_of(a@));
                }
                let mut i: usize = 0;
                while i < a.len()
                    invariant
                        0 <= i <= a@.len(),
                        self.wf(),
                        self.registry == old(self).registry,
                        scan_list(vals_of(a@).skip(i as int), self.table_view()) == scan_list(
                            vals_of(a@),
                            t0,
                        ),
                    decreases a@.len() - i,
                {
                    proof {
                        lemma_vals_of_index(a@);
                        let rest = vals_of(a@).skip(i as int);
                        assert(rest[0] == vals_of(a@)[i as int]);
                        assert(rest.drop_first() =~= vals_of(a@).skip(i as int + 1));
                        assert(scan_list(rest, self.table_view()) == scan_list(
                            vals_of(a@).skip(i as int + 1),
                            scan_val(vals_of(a@)[i as int], self.table_view()),
                        ));
                        lemma_scan_list_keeps(
                            vals_of(a@).skip(i as int + 1),
                            scan_val(vals_of(a@)[i as int], self.table_view()),
                        );
                        assert(decreases_to!(*value => a@[i as int])) by {
                            assert(*value == Value::Arr(*a));
                            assert(decreases_to!(*value => (*value)->Arr_0));
                            assert((*value)->Arr_0 == *a);
                            assert(decreases_to!(*a => a@));
                            assert(decreases_to!(a@ => a@[i as int]));
                        }
                    }
                    self.scan_strings(&a[i]);
                    i = i + 1;
                }
                proof {
                    assert(vals_of(a@).skip(vals_of(a@).len() as int)
                        =~= Seq::<Val>::empty());
                }
            },
            Value::Obj(fs) => {
                let ghost fv = pairs_of(fs@);
                proof {
                    lemma_pairs_of_index(fs@);
                    assert(value@ == Val::Obj(fv));
                    assert(scan_val(value@, t0) == scan_vals(fv, scan_keys(fv, t0)));
                    assert(fv.skip(0) =~= fv);
                }
                // keys first, in order
                let mut i: usize = 0;
                while i < fs.len()
                    invariant
                        0 <= i <= fs@.len(),
                        self.wf(),
                        self.registry == old(self).registry,
                        scan_keys(fv.skip(i as int), self.table_view()) == scan_keys(fv, t0),
                    decreases fs@.len() - i,
                {
                    proof {
                        lemma_pairs_of_index(fs@);
                        let rest = fv.skip(i as int);
                        assert(rest[0] == fv[i as int]);
                        assert(rest.drop_first() =~= fv.skip(i as int + 1));
                        assert(scan_keys(rest, self.table_view()) == scan_keys(
                            fv.skip(i as int + 1),
                            tbl_add(self.table_view(), fv[i as int].0),
                        ));
                        lemma_scan_keys_keeps(fv.skip(i as int + 1), tbl_add(self.table_view(), fv[i as int].0));
                        lemma_scan_vals_keeps(fv, scan_keys(fv, t0));
                    }
                    self.string_table.add(fs[i].0.as_str());
                    i = i + 1;
                }
                proof {
                    assert(fv.skip(fv.len() as int) =~= Seq::<(Seq<char>, Val)>::empty());
                }
                // then the values
                proof {
                    assert(fv.skip(0) =~= fv);
                }
                let mut j: usize = 0;
                while j < fs.len()
                    invariant
                        0 <= j <= fs@.len(),
                        self.wf(),
                        self.registry == old(self).registry,
                        scan_vals(fv.skip(j as int), self.table_view()) == scan_vals(
                            fv,
                            scan_keys(fv, t0),
                        ),
                    decreases fs@.len() - j,
                {
                    proof {
                        lemma_pairs_of_index(fs@);
                        let rest = fv.skip(j as int);
                        assert(rest[0] == fv[j as int]);
                        assert(rest.drop_first() =~= fv.skip(j as int + 1));
                        assert(scan_vals(rest, self.table_view()) == scan_vals(
                            fv.skip(j as int + 1),
                            scan_val(fv[j as int].1, self.table_view()),
                        ));
                        lemma_scan_vals_keeps(
                            fv.skip(j as int + 1),
                            scan_val(fv[j as int].1, self.table_view()),
                        );
                        assert(decreases_to!(*value => fs@[j as int].1)) by {
                            assert(*value == Value::Obj(*fs));
                            assert(decreases_to!(*value => (*value)->Obj_0));
                            assert((*value)->Obj_0 == *fs);
                            assert(decreases_to!(*fs => fs@));
                            assert(decreases_to!(fs@ => fs@[j as int]));
                            assert(decreases_to!(fs@[j as int] => fs@[j as int].1));
                        }
                    }
                    self.scan_strings(&fs[j].1);
                    j = j + 1;
                }
                proof {
                    assert(fv.skip(fv.len() as int) =~= Seq::<(Seq<char>, Val)>::empty());
                }
            },
            _ => {},
        }
    }
}

/// A decode failure: always a typed, recoverable result, carrying the
/// offending position, opcode or id.
#[derive(Debug, PartialEq, Eq, Structural)]
pub enum DecodeError {
    /// Input shorter than the 5-byte header.
    TooShort,
    /// The first four bytes are not the expected magic.
    BadMagic,
    /// An unsupported version byte.
    BadVersion { version: u8 },
    /// The input ends before the bytes needed at `pos`.
    Truncated { pos: usize },
    /// The dictionary entry starting at `pos` is not valid UTF-8.
    Encoding { pos: usize },
    /// A string or key id at least as large as the dictionary.
    Reference { id: u32, dict_len: usize },
    /// An unrecognized opcode byte.
    UnknownOpcode { opcode: u8, pos: usize },
}

/// An LEB128 read at `pos`, truncated to 32 bits, with the consumed count
/// clamped into the remaining input (the clamp never bites; see
/// [`lemma_vread_at`]).
pub open spec fn vread_at(b: Seq<u8>, pos: int) -> (nat, int) {
    let r = varint_read(b.skip(pos));
    let c = if r.1 < 0 {
        0
    } else if r.1 > b.len() - pos {
        b.len() - pos
    } else {
        r.1
    };
    (r.0 % 0x100000000, c)
}

pub proof fn lemma_varint_read_bounds(b: Seq<u8>)
    ensures
        0 <= varint_read(b).1 <= b.len(),
    decreases b.len(),
{
    if b.len() > 0 && b[0] >= 128 {
        lemma_varint_read_bounds(b.drop_first());
    }
}

/// The clamp in `vread_at` never changes the consumed count.
pub proof fn lemma_vread_at(b: Seq<u8>, pos: int)
    requires
        0 <= pos <= b.len(),
    ensures
        vread_at(b, pos).1 == varint_read(b.skip(pos)).1,
        0 <= vread_at(b, pos).1 <= b.len() - pos,
{
    lemma_varint_read_bounds(b.skip(pos));
}

/// Inserting a field as the decoder does: sorted by key, replacing on an
/// equal key (last write wins).
pub open spec fn obj_insert(fs: Seq<(Seq<char>, Val)>, k: Seq<char>, v: Val) -> Seq<
    (Seq<char>, Val),
>
    decreases fs.len(),
{
    if fs.len() == 0 {
        seq![(k, v)]
    } else if crate::strutil::chars_lt(fs[0].0, k) {
        seq![fs[0]] + obj_insert(fs.drop_first(), k, v)
    } else if fs[0].0 == k {
        seq![(k, v)] + fs.drop_first()
    } else {
        seq![(k, v)] + fs
    }
}

/// Parse one value at `pos` against dictionary `d`.
pub open spec fn parse_value(b: Seq<u8>, pos: int, d: Seq<Seq<char>>) -> Result<
    (Val, int),
    DecodeError,
>
    decreases b.len() - pos, 0int, 0nat,
{
    if pos < 0 || pos >= b.len() {
        Err(DecodeError::Truncated { pos: pos as usize })
    } else {
        let op = b[pos];
        if op == 0 {
            Ok((Val::Null, pos + 1))
        } else if op == 1 {
            Ok((Val::Bool(true), pos + 1))
        } else if op == 2 {
            Ok((Val::Bool(false), pos + 1))
        } else if op == 3 {
            if pos + 2 <= b.len() {
                Ok((Val::Int(i8_of_byte(b[pos + 1]) as i64), pos + 2))
            } else {
                Err(DecodeError::Truncated { pos: pos as usize })
            }
        } else if op == 5 {
            if pos + 5 <= b.len() {
                Ok((Val::Int(i32_of_u32(le_read(b, pos + 1, 4)) as i64), pos + 5))
            } else {
                Err(DecodeError::Truncated { pos: pos as usize })
            }
        } else if op == 6 {
            if pos + 9 <= b.len() {
                let bits = le_read(b, pos + 1, 8) as u64;
                if crate::floatbits::f_special(bits) {
                    Ok((Val::Null, pos + 9))
                } else {
                    Ok((Val::Float(bits), pos + 9))
                }
            } else {
                Err(DecodeError::Truncated { pos: pos as usize })
            }
        } else if op == 7 {
            let (id, c) = vread_at(b, pos + 1);
            if id < d.len() {
                Ok((Val::Str(d[id as int]), pos + 1 + c))
            } else {
                Err(DecodeError::Reference { id: id as u32, dict_len: d.len() as usize })
            }
        } else if op == 8 {
            let (cnt, c) = vread_at(b, pos + 1);
            match parse_items(b, pos + 1 + c, cnt, d, Seq::empty()) {
                Ok((items, p2)) => Ok((Val::Arr(items), p2)),
                Err(e) => Err(e),
            }
        } else if op == 9 {
            let (cnt, c) = vread_at(b, pos + 1);
            match parse_fields(b, pos + 1 + c, cnt, d, Seq::empty()) {
                Ok((fields, p2)) => Ok((Val::Obj(fields), p2)),
                Err(e) => Err(e),
            }
        } else {
            Err(DecodeError::UnknownOpcode { opcode: op, pos: pos as usize })
        }
    }
}

/// Parse `k` array elements starting at `pos`.
pub open spec fn parse_items(b: Seq<u8>, pos: int, k: nat, d: Seq<Seq<char>>, acc: Seq<Val>)
    -> Result<(Seq<Val>, int), DecodeError>
    decreases b.len() - pos, 1int, k,
{
    if k == 0 {
        Ok((acc, pos))
    } else if pos < 0 || pos >= b.len() {
        Err(DecodeError::Truncated { pos: pos as usize })
    } else {
        match parse_value(b, pos, d) {
            Ok((v, np)) => {
                let np2 = if np < pos + 1 {
                    pos + 1
                } else if np > b.len() {
                    b.len() as int
                } else {
                    np
                };
                parse_items(b, np2, (k - 1) as nat, d, acc.push(v))
            },
            Err(e) => Err(e),
        }
    }
}

/// Parse `k` object fields starting at `pos`, inserting sorted by key,
/// later duplicates replacing earlier ones.
pub open spec fn parse_fields(
    b: Seq<u8>,
    pos: int,
    k: nat,
    d: Seq<Seq<char>>,
    acc: Seq<(Seq<char>, Val)>,
) -> Result<(Seq<(Seq<char>, Val)>, int), DecodeError>
    decreases b.len() - pos, 1int, k,
{
    if k == 0 {
        Ok((acc, pos))
    } else if pos < 0 || pos >= b.len() {
        Err(DecodeError::Truncated { pos: pos as usize })
    } else {
        let (kid, c) = vread_at(b, pos);
        if kid >= d.len() {
            Err(DecodeError::Reference { id: kid as u32, dict_len: d.len() as usize })
        } else {
            let vp = if c < 0 {
                pos
            } else if pos + c > b.len() {
                b.len() as int
            } else {
                pos + c
            };
            match parse_value(b, vp, d) {
                Ok((v, np)) => {
                    let np2 = if np < pos + 1 {
                        pos + 1
                    } else if np > b.len() {
                        b.len() as int
                    } else {
                        np
                    };
                    parse_fields(b, np2, (k - 1) as nat, d, obj_insert(acc, d[kid as int], v))
                },
                Err(e) => Err(e),
            }
        }
    }
}

/// Parse `k` dictionary entries starting at `pos`.
pub open spec fn parse_dict(b: Seq<u8>, pos: int, k: nat, acc: Seq<Seq<char>>) -> Result<
    (Seq<Seq<char>>, int),
    DecodeError,
>
    decreases k,
{
    if k == 0 {
        Ok((acc, pos))
    } else {
        let (slen, c) = vread_at(b, pos);
        let start = pos + c;
        if start + slen > b.len() || start < 0 {
            Err(DecodeError::Truncated { pos: start as usize })
        } else {
            let entry = b.subrange(start, start + slen);
            if vstd::utf8::valid_utf8(entry) {
                parse_dict(b, start + slen, (k - 1) as nat, acc.push(vstd::utf8::decode_utf8(entry)))
            } else {
                Err(DecodeError::Encoding { pos: start as usize })
            }
        }
    }
}

/// Parse a whole document: header, dictionary, value tree.  Trailing bytes
/// are ignored.
pub open spec fn parse_doc(b: Seq<u8>) -> Result<Val, DecodeError> {
    if b.len() < 5 {
        Err(DecodeError::TooShort)
    } else if b[0] != 0x54 || b[1] != 0x45 || b[2] != 0x4e || b[3] != 0x53 {
        Err(DecodeError::BadMagic)
    } else if b[4] != 2 {
        Err(DecodeError::BadVersion { version: b[4] })
    } else {
        let (cnt, c) = vread_at(b, 5);
        match parse_dict(b, 5 + c, cnt, Seq::empty()) {
            Ok((d, p)) => match parse_value(b, p, d) {
                Ok((v, _)) => Ok(v),
                Err(e) => Err(e),
            },
            Err(e) => Err(e),
        }
    }
}

/// Relies on std's `str::from_utf8`: bytes decode exactly when they are
/// valid UTF-8, to the string whose UTF-8 bytes they are.
#[verifier::external_body]
fn bytes_to_string(v: &[u8]) -> (r: Option<String>)
    ensures
        r is Some <==> vstd::utf8::valid_utf8(v@),
        r is Some ==> vstd::utf8::encode_utf8(r->Some_0@) == v@,
{
    match std::str::from_utf8(v) {
        Ok(s) => Some(s.to_owned()),
        Err(_) => None,
    }
}

/// Where the decoder's scan stopped is where `obj_insert` puts the field.
pub proof fn lemma_obj_insert_at(fs: Seq<(Seq<char>, Val)>, k: Seq<char>, v: Val, pos: int)
    requires
        0 <= pos <= fs.len(),
        forall|j: int| 0 <= j < pos ==> crate::strutil::chars_lt((#[trigger] fs[j]).0, k),
        pos < fs.len() ==> !crate::strutil::chars_lt(fs[pos].0, k),
    ensures
        pos < fs.len() && fs[pos].0 == k ==> obj_insert(fs, k, v) =~= fs.update(pos, (k, v)),
        !(pos < fs.len() && fs[pos].0 == k) ==> obj_insert(fs, k, v) =~= fs.take(pos) + seq![
            (k, v),
        ] + fs.skip(pos),
    decreases pos,
{
    if pos == 0 {
        if fs.len() > 0 {
            if fs[0].0 == k {
                assert(obj_insert(fs, k, v) =~= fs.update(0, (k, v)));
            } else {
                assert(obj_insert(fs, k, v) =~= fs.take(0) + seq![(k, v)] + fs.skip(0));
            }
        } else {
            assert(obj_insert(fs, k, v) =~= fs.take(0) + seq![(k, v)] + fs.skip(0));
        }
    } else {
        assert(crate::strutil::chars_lt(fs[0].0, k));
        lemma_obj_insert_at(fs.drop_first(), k, v, pos - 1);
        assert(fs.drop_first().take(pos - 1) =~= fs.take(pos).drop_first());
        assert(fs.drop_first().skip(pos - 1) =~= fs.skip(pos));
        if pos < fs.len() && fs[pos].0 == k {
            assert(fs.drop_first()[pos - 1] == fs[pos]);
            assert(fs.drop_first().update(pos - 1, (k, v)) =~= fs.update(pos, (k, v)).drop_first());
            assert(obj_insert(fs, k, v) =~= fs.update(pos, (k, v)));
        } else {
            assert(obj_insert(fs, k, v) =~= fs.take(pos) + seq![(k, v)] + fs.skip(pos));
        }
    }
}

/// The TENS v2 binary decoder; it keeps the dictionary of the last decode.
pub struct TensDecoder {
    dictionary: Vec<String>,
}

impl TensDecoder {
    /// The decoded dictionary entries.
    pub closed spec fn dict_view(&self) -> Seq<Seq<char>> {
        Seq::new(self.dictionary@.len(), |i: int| self.dictionary@[i]@)
    }

    pub fn new() -> (r: TensDecoder)
        ensures
            r.dict_view() == Seq::<Seq<char>>::empty(),
    {
        let r = TensDecoder { dictionary: Vec::new() };
        proof {
            assert(r.dict_view() =~= Seq::<Seq<char>>::empty());
        }
        r
    }

    /// Decode TENS v2 binary bytes back into a value.  Exactly the inputs
    /// accepted by the grammar decode; every failure is a typed error.
    #[verifier::rlimit(100)]
    #[verifier::loop_isolation(false)]
    pub fn decode(&mut self, bytes: &[u8]) -> (r: Result<Value, DecodeError>)
        ensures
            match r {
                Ok(v) => parse_doc(bytes@) is Ok && v@ == parse_doc(bytes@)->Ok_0,
                Err(e) => parse_doc(bytes@) == Err::<Val, DecodeError>(e),
            },
    {
        let n = bytes.len();
        if n < 5 {
            return Err(DecodeError::TooShort);
        }
        if !(bytes[0] == 0x54 && bytes[1] == 0x45 && bytes[2] == 0x4e && bytes[3] == 0x53) {
            return Err(DecodeError::BadMagic);
        }
        if bytes[4] != 2 {
            return Err(DecodeError::BadVersion { version: bytes[4] });
        }
        // dictionary count
        let tail = vstd::slice::slice_subrange(bytes, 5, n);
        proof {
            assert(tail@ =~= bytes@.skip(5));
            lemma_vread_at(bytes@, 5);
        }
        let (dict_count, consumed) = decode_varint(tail);
        let mut pos: usize = 5 + consumed;
        let ghost spec_count = vread_at(bytes@, 5).0;
        proof {
            assert(dict_count as nat == spec_count);
        }
        // dictionary entries
        let mut dict: Vec<String> = Vec::new();
        let mut remaining: u32 = dict_count;
        proof {
            assert(Seq::new(dict@.len(), |i: int| dict@[i]@) =~= Seq::<Seq<char>>::empty());
        }
        while remaining > 0
            invariant
                0 <= pos <= n,
                n == bytes@.len(),
                parse_dict(bytes@, 5 + vread_at(bytes@, 5).1, spec_count, Seq::empty())
                    == parse_dict(
                    bytes@,
                    pos as int,
                    remaining as nat,
                    Seq::new(dict@.len(), |i: int| dict@[i]@),
                ),
            decreases remaining,
        {
            let etail = vstd::slice::slice_subrange(bytes, pos, n);
            proof {
                assert(etail@ =~= bytes@.skip(pos as int));
                lemma_vread_at(bytes@, pos as int);
            }
            let (str_len, c) = decode_varint(etail);
            let start: usize = pos + c;
            let ghost dv = Seq::new(dict@.len(), |i: int| dict@[i]@);
            if str_len as u64 > (n - start) as u64 {
                proof {
                    assert(parse_dict(bytes@, pos as int, remaining as nat, dv)
                        == Err::<(Seq<Seq<char>>, int), DecodeError>(
                        DecodeError::Truncated { pos: start },
                    ));
                }
                return Err(DecodeError::Truncated { pos: start });
            }
            let end: usize = start + (str_len as usize);
            let entry = vstd::slice::slice_subrange(bytes, start, end);
            proof {
                assert(entry@ =~= bytes@.subrange(start as int, start as int + str_len as int));
            }
            match bytes_to_string(entry) {
                Some(s) => {
                    proof {
                        vstd::utf8::encode_utf8_decode_utf8(s@);
                        assert(s@ == vstd::utf8::decode_utf8(entry@));
                    }
                    dict.push(s);
                    proof {
                        assert(Seq::new(dict@.len(), |i: int| dict@[i]@) =~= dv.push(
                            vstd::utf8::decode_utf8(entry@),
                        ));
                    }
                },
                None => {
                    proof {
                        assert(parse_dict(bytes@, pos as int, remaining as nat, dv)
                            == Err::<(Seq<Seq<char>>, int), DecodeError>(
                            DecodeError::Encoding { pos: start },
                        ));
                    }
                    return Err(DecodeError::Encoding { pos: start });
                },
            }
            pos = end;
            remaining = remaining - 1;
        }
        self.dictionary = dict;
        // the value tree
        let r = self.decode_value(bytes, pos);
        match r {
            Ok((v, _)) => Ok(v),
            Err(e) => Err(e),
        }
    }

    /// Decode one value at `pos`; on success also the position after it.
    #[verifier::rlimit(100)]
    #[verifier::loop_isolation(false)]
    fn decode_value(&self, bytes: &[u8], pos: usize) -> (r: Result<(Value, usize), DecodeError>)
        requires
            pos <= bytes@.len(),
        ensures
            match r {
                Ok((v, np)) => parse_value(bytes@, pos as int, self.dict_view()) == Ok::<
                    (Val, int),
                    DecodeError,
                >((v@, np as int)) && pos < np <= bytes@.len(),
                Err(e) => parse_value(bytes@, pos as int, self.dict_view()) == Err::<
                    (Val, int),
                    DecodeError,
                >(e),
            },
        decreases bytes@.len() - pos,
    {
        let ghost d = self.dict_view();
        let n = bytes.len();
        if pos >= n {
            return Err(DecodeError::Truncated { pos });
        }
        let op = bytes[pos];
        if op == 0 {
            proof {
                assert(parse_value(bytes@, pos as int, d) == Ok::<(Val, int), DecodeError>(
                    (Val::Null, pos + 1),
                ));
            }
            Ok((Value::Null, pos + 1))
        } else if op == 1 {
            proof {
                assert(parse_value(bytes@, pos as int, d) == Ok::<(Val, int), DecodeError>(
                    (Val::Bool(true), pos + 1),
                ));
            }
            Ok((Value::Bool(true), pos + 1))
        } else if op == 2 {
            proof {
                assert(parse_value(bytes@, pos as int, d) == Ok::<(Val, int), DecodeError>(
                    (Val::Bool(false), pos + 1),
                ));
            }
            Ok((Value::Bool(false), pos + 1))
        } else if op == 3 {
            if n - pos >= 2 {
                let b1 = bytes[pos + 1];
                let v: i64 = if b1 < 128 {
                    b1 as i64
                } else {
                    (b1 as i64) - 256
                };
                proof {
                    assert(v as int == i8_of_byte(bytes@[pos + 1]));
                    assert(parse_value(bytes@, pos as int, d) == Ok::<(Val, int), DecodeError>(
                        (Val::Int(v), pos + 2),
                    ));
                }
                Ok((Value::Int(v), pos + 2))
            } else {
                Err(DecodeError::Truncated { pos })
            }
        } else if op == 5 {
            if n - pos >= 5 {
                let u: u32 = (bytes[pos + 1] as u32) + 256 * (bytes[pos + 2] as u32) + 65536 * (
                bytes[pos + 3] as u32) + 16777216 * (bytes[pos + 4] as u32);
                let v: i64 = if u < 0x80000000 {
                    u as i64
                } else {
                    (u as i64) - 0x100000000
                };
                proof {
                    lemma_le_read4(bytes@, pos + 1);
                    assert(u as nat == le_read(bytes@, pos + 1, 4));
                    assert(v as int == i32_of_u32(le_read(bytes@, pos + 1, 4)));
                    assert(parse_value(bytes@, pos as int, d) == Ok::<(Val, int), DecodeError>(
                        (Val::Int(v), pos + 5),
                    ));
                }
                Ok((Value::Int(v), pos + 5))
            } else {
                Err(DecodeError::Truncated { pos })
            }
        } else if op == 6 {
            if n - pos >= 9 {
                let mut bits: u64 = 0;
                let mut j: usize = 8;
                proof {
                    lemma_pow256_values();
                }
                while j > 0
                    invariant
                        0 <= j <= 8,
                        pos + 9 <= bytes@.len(),
                        bits == le_read(bytes@, pos + 1 + j, (8 - j) as nat),
                        bits < pow256((8 - j) as nat),
                    decreases j,
                {
                    proof {
                        lemma_pow256_values();
                        assert(256 * pow256((8 - j) as nat) == pow256((8 - j + 1) as nat));
                        assert(pow256((8 - j) as nat) <= pow256(7)) by {
                            lemma_pow256_mono((8 - j) as nat, 7);
                        }
                    }
                    j = j - 1;
                    bits = (bytes[pos + 1 + j] as u64) + 256 * bits;
                    proof {
                        assert(le_read(bytes@, pos + 1 + j, (8 - j) as nat) == (bytes@[pos + 1
                            + j] + 256 * le_read(bytes@, pos + 2 + j, (7 - j) as nat)) as nat);
                    }
                }
                proof {
                    assert(bits == le_read(bytes@, pos + 1, 8));
                    assert((le_read(bytes@, pos + 1, 8) as u64) == bits);
                }
                if crate::floatbits::float_special(bits) {
                    Ok((Value::Null, pos + 9))
                } else {
                    Ok((Value::Float(bits), pos + 9))
                }
            } else {
                Err(DecodeError::Truncated { pos })
            }
        } else if op == 7 {
            let tail = vstd::slice::slice_subrange(bytes, pos + 1, n);
            proof {
                assert(tail@ =~= bytes@.skip(pos as int + 1));
                lemma_vread_at(bytes@, pos as int + 1);
            }
            let (id, c) = decode_varint(tail);
            if (id as usize) < self.dictionary.len() {
                let s = self.dictionary[id as usize].clone();
                proof {
                    assert(s@ == d[id as int]);
                }
                Ok((Value::Str(s), pos + 1 + c))
            } else {
                Err(DecodeError::Reference { id, dict_len: self.dictionary.len() })
            }
        } else if op == 8 {
            let tail = vstd::slice::slice_subrange(bytes, pos + 1, n);
            proof {
                assert(tail@ =~= bytes@.skip(pos as int + 1));
                lemma_vread_at(bytes@, pos as int + 1);
            }
            let (cnt, c) = decode_varint(tail);
            let mut items: Vec<Value> = Vec::new();
            let mut cur: usize = pos + 1 + c;
            let mut remaining: u32 = cnt;
            let ghost start = cur as int;
            while remaining > 0
                invariant
                    pos + 1 <= cur <= bytes@.len(),
                    d == self.dict_view(),
                    parse_items(bytes@, start, vread_at(bytes@, pos + 1).0, d, Seq::empty())
                        == parse_items(bytes@, cur as int, remaining as nat, d, vals_of(items@)),
                decreases remaining,
            {
                proof {
                    lemma_vals_of_index(items@);
                }
                let ghost pre_items = items@;
                match self.decode_value(bytes, cur) {
                    Ok((v, np)) => {
                        items.push(v);
                        proof {
                            lemma_vals_of_index(items@);
                            lemma_vals_of_index(pre_items);
                            assert(items@.drop_last() =~= pre_items);
                            assert(vals_of(items@) =~= vals_of(pre_items).push(val_of(v))) by {
                                assert(vals_of(items@).len() == items@.len());
                                assert forall|x: int| 0 <= x < items@.len() implies vals_of(
                                    items@,
                                )[x] == vals_of(pre_items).push(val_of(v))[x] by {
                                    assert(vals_of(items@)[x] == val_of(items@[x]));
                                    if x < pre_items.len() {
                                        assert(items@[x] == pre_items[x]);
                                    }
                                }
                            }
                        }
                        cur = np;
                        remaining = remaining - 1;
                    },
                    Err(e) => {
                        return Err(e);
                    },
                }
            }
            Ok((Value::Arr(items), cur))
        } else if op == 9 {
            let tail = vstd::slice::slice_subrange(bytes, pos + 1, n);
            proof {
                assert(tail@ =~= bytes@.skip(pos as int + 1));
                lemma_vread_at(bytes@, pos as int + 1);
            }
            let (cnt, c) = decode_varint(tail);
            let mut fields: Vec<(String, Value)> = Vec::new();
            let mut cur: usize = pos + 1 + c;
            let mut remaining: u32 = cnt;
            let ghost start = cur as int;
            while remaining > 0
                invariant
                    pos + 1 <= cur <= bytes@.len(),
                    d == self.dict_view(),
                    parse_fields(bytes@, start, vread_at(bytes@, pos + 1).0, d, Seq::empty())
                        == parse_fields(
                        bytes@,
                        cur as int,
                        remaining as nat,
                        d,
                        pairs_of(fields@),
                    ),
                decreases remaining,
            {
                if cur >= n {
                    return Err(DecodeError::Truncated { pos: cur });
                }
                let ktail = vstd::slice::slice_subrange(bytes, cur, n);
                proof {
                    assert(ktail@ =~= bytes@.skip(cur as int));
                    lemma_vread_at(bytes@, cur as int);
                }
                let (key_id, kc) = decode_varint(ktail);
                if (key_id as usize) >= self.dictionary.len() {
                    return Err(
                        DecodeError::Reference { id: key_id, dict_len: self.dictionary.len() },
                    );
                }
                let key = self.dictionary[key_id as usize].clone();
                proof {
                    assert(key@ == d[key_id as int]);
                }
                match self.decode_value(bytes, cur + kc) {
                    Ok((v, np)) => {
                        obj_insert_exec(&mut fields, key, v);
                        cur = np;
                        remaining = remaining - 1;
                    },
                    Err(e) => {
                        return Err(e);
                    },
                }
            }
            Ok((Value::Obj(fields), cur))
        } else {
            Err(DecodeError::UnknownOpcode { opcode: op, pos })
        }
    }
}

/// Insert a decoded field: sorted by key, replacing an equal key.
pub(crate) fn obj_insert_exec(fields: &mut Vec<(String, Value)>, key: String, v: Value)
    ensures
        pairs_of(final(fields)@) == obj_insert(pairs_of(old(fields)@), key@, val_of(v)),
{
    let ghost fp = pairs_of(old(fields)@);
    proof {
        lemma_pairs_of_index(old(fields)@);
    }
    let kc = crate::strutil::str_chars(key.as_str());
    let mut posn: usize = 0;
    #[verifier::loop_isolation(true)]
    loop
        invariant_except_break
            0 <= posn <= fields@.len(),
            kc@ == key@,
            *fields == *old(fields),
            forall|j: int|
                0 <= j < posn ==> crate::strutil::chars_lt((#[trigger] fields@[j]).0@, key@),
        ensures
            0 <= posn <= fields@.len(),
            *fields == *old(fields),
            forall|j: int|
                0 <= j < posn ==> crate::strutil::chars_lt((#[trigger] fields@[j]).0@, key@),
            posn < fields@.len() ==> !crate::strutil::chars_lt(fields@[posn as int].0@, key@),
        decreases fields@.len() - posn,
    {
        if posn >= fields.len() {
            break;
        }
        let fkc = crate::strutil::str_chars(fields[posn].0.as_str());
        if !crate::strutil::chars_lt_exec(&fkc, &kc) {
            break;
        }
        posn = posn + 1;
    }
    proof {
        assert forall|j: int| 0 <= j < posn implies crate::strutil::chars_lt(
            (#[trigger] fp[j]).0,
            key@,
        ) by {
            assert(fp[j].0 == old(fields)@[j].0@);
        }
        if (posn as int) < fp.len() {
            assert(fp[posn as int].0 == old(fields)@[posn as int].0@);
        }
        lemma_obj_insert_at(fp, key@, val_of(v), posn as int);
    }
    let mut replace = false;
    if posn < fields.len() {
        let fkc = crate::strutil::str_chars(fields[posn].0.as_str());
        if crate::strutil::chars_eq_exec(&fkc, &kc) {
            replace = true;
        }
    }
    if replace {
        let ghost pre = fields@;
        fields.set(posn, (key, v));
        proof {
            lemma_pairs_of_index(fields@);
            lemma_pairs_of_index(pre);
            assert(fields@ =~= pre.update(posn as int, (key, v)));
            assert(pairs_of(fields@) =~= fp.update(posn as int, (key@, val_of(v))));
            assert(fp[posn as int].0 == key@);
            assert(pairs_of(fields@) =~= obj_insert(fp, key@, val_of(v)));
        }
    } else {
        let ghost pre = fields@;
        fields.insert(posn, (key, v));
        proof {
            lemma_pairs_of_index(fields@);
            lemma_pairs_of_index(pre);
            pre.insert_ensures(posn as int, (key, v));
            assert(fields@ == pre.insert(posn as int, (key, v)));
            if (posn as int) < fp.len() {
                assert(fp[posn as int].0 != key@) by {
                    assert(fp[posn as int].0 == old(fields)@[posn as int].0@);
                }
            }
            assert(pairs_of(fields@) =~= fp.take(posn as int) + seq![(key@, val_of(v))] + fp.skip(
                posn as int,
            ));
            assert(pairs_of(fields@) =~= obj_insert(fp, key@, val_of(v)));
        }
    }
}

/// Four little-endian bytes read back as base-256 digits.
proof fn lemma_le_read4(b: Seq<u8>, pos: int)
    requires
        0 <= pos,
        pos + 4 <= b.len(),
    ensures
        le_read(b, pos, 4) == b[pos] + 256 * b[pos + 1] + 65536 * b[pos + 2] + 16777216 * b[pos
            + 3],
        le_read(b, pos, 4) < 0x100000000,
{
    assert(le_read(b, pos + 3, 1) == b[pos + 3] + 256 * le_read(b, pos + 4, 0));
    assert(le_read(b, pos + 2, 2) == b[pos + 2] + 256 * le_read(b, pos + 3, 1));
    assert(le_read(b, pos + 1, 3) == b[pos + 1] + 256 * le_read(b, pos + 2, 2));
    assert(le_read(b, pos, 4) == b[pos] + 256 * le_read(b, pos + 1, 3));
}

/// Append the four little-endian bytes of `u`.
fn push_le32(u: u32, out: &mut Vec<u8>)
    ensures
        final(out)@ == old(out)@ + le_bytes(u as nat, 4),
{
    let b0: u8 = (u % 256) as u8;
    let b1: u8 = ((u / 256) % 256) as u8;
    let b2: u8 = ((u / 65536) % 256) as u8;
    let b3: u8 = ((u / 16777216) % 256) as u8;
    out.push(b0);
    out.push(b1);
    out.push(b2);
    out.push(b3);
    proof {
        let n = u as nat;
        lemma_div_chain32(n);
        assert(le_bytes(n / 4294967296, 0) =~= Seq::<u8>::empty());
        assert(le_bytes(n / 16777216, 1) =~= seq![((n / 16777216) % 256) as u8]);
        assert(le_bytes(n / 65536, 2) =~= seq![((n / 65536) % 256) as u8] + le_bytes(
            n / 16777216,
            1,
        ));
        assert(le_bytes(n / 256, 3) =~= seq![((n / 256) % 256) as u8] + le_bytes(n / 65536, 2));
        assert(le_bytes(n, 4) =~= seq![(n % 256) as u8] + le_bytes(n / 256, 3));
        assert(out@ =~= old(out)@ + le_bytes(n, 4));
    }
}

proof fn lemma_div_chain32(n: nat)
    ensures
        n / 256 / 256 == n / 65536,
        n / 65536 / 256 == n / 16777216,
        n / 16777216 / 256 == n / 4294967296,
        n < 4294967296 ==> n / 16777216 < 256,
{
    vstd::arithmetic::div_mod::lemma_div_denominator(n as int, 256, 256);
    vstd::arithmetic::div_mod::lemma_div_denominator(n as int, 65536, 256);
    vstd::arithmetic::div_mod::lemma_div_denominator(n as int, 16777216, 256);
}

/// Append the eight little-endian bytes of `u`.
fn push_le64(u: u64, out: &mut Vec<u8>)
    ensures
        final(out)@ == old(out)@ + le_bytes(u as nat, 8),
{
    let mut i: usize = 0;
    let mut cur: u64 = u;
    proof {
        assert(pow256(0) == 1);
        assert((u as nat) / 1 == u as nat);
    }
    while i < 8
        invariant
            0 <= i <= 8,
            cur as nat == (u as nat) / pow256(i as nat),
            out@ + le_bytes(cur as nat, (8 - i) as nat) == old(out)@ + le_bytes(u as nat, 8),
        decreases 8 - i,
    {
        out.push((cur % 256) as u8);
        proof {
            assert(le_bytes(cur as nat, (8 - i) as nat) =~= seq![((cur as nat) % 256) as u8]
                + le_bytes((cur as nat) / 256, (7 - i) as nat));
            lemma_pow256_pos(i as nat);
            vstd::arithmetic::div_mod::lemma_div_denominator(u as int, pow256(i as nat) as int, 256);
            assert(pow256(i as nat + 1) == pow256(i as nat) * 256) by {
                lemma_pow256_unfold(i as nat + 1);
            }
            assert(out@ + le_bytes((cur as nat) / 256, (7 - i) as nat) =~= old(out)@ + le_bytes(
                u as nat,
                8,
            ));
        }
        cur = cur / 256;
        i = i + 1;
    }
    proof {
        assert(le_bytes(cur as nat, 0) =~= Seq::<u8>::empty());
        assert(out@ =~= old(out)@ + le_bytes(u as nat, 8));
    }
}

/// `256^k`.
pub open spec fn pow256(k: nat) -> nat
    decreases k,
{
    if k == 0 {
        1
    } else {
        256 * pow256((k - 1) as nat)
    }
}

proof fn lemma_pow256_unfold(k: nat)
    requires
        k >= 1,
    ensures
        pow256(k) == pow256((k - 1) as nat) * 256,
{
    assert(256 * pow256((k - 1) as nat) == pow256((k - 1) as nat) * 256) by (nonlinear_arith);
}

pub proof fn lemma_pow256_values()
    ensures
        pow256(0) == 1,
        pow256(1) == 0x100,
        pow256(2) == 0x10000,
        pow256(3) == 0x1000000,
        pow256(4) == 0x100000000,
        pow256(5) == 0x10000000000,
        pow256(6) == 0x1000000000000,
        pow256(7) == 0x100000000000000,
        pow256(8) == 0x10000000000000000,
{
    assert(pow256(0) == 1);
    assert(pow256(1) == 0x100);
    assert(pow256(2) == 0x10000);
    assert(pow256(3) == 0x1000000);
    assert(pow256(4) == 0x100000000);
    assert(pow256(5) == 0x10000000000);
    assert(pow256(6) == 0x1000000000000);
    assert(pow256(7) == 0x100000000000000);
    assert(pow256(8) == 0x10000000000000000);
}

pub proof fn lemma_pow256_pos(k: nat)
    ensures
        pow256(k) >= 1,
    decreases k,
{
    if k > 0 {
        lemma_pow256_pos((k - 1) as nat);
        assert(256 * pow256((k - 1) as nat) >= pow256((k - 1) as nat)) by (nonlinear_arith)
            requires
                pow256((k - 1) as nat) >= 1,
        ;
    }
}

pub proof fn lemma_pow256_mono(a: nat, b: nat)
    requires
        a <= b,
    ensures
        pow256(a) <= pow256(b),
    decreases b,
{
    if a < b {
        lemma_pow256_mono(a, (b - 1) as nat);
        lemma_pow256_pos((b - 1) as nat);
        assert(256 * pow256((b - 1) as nat) >= pow256((b - 1) as nat)) by (nonlinear_arith)
            requires
                pow256((b - 1) as nat) >= 1,
        ;
    }
}

/// Append the integer opcode bytes for `i`.
fn emit_int(i: i64, out: &mut Vec<u8>)
    ensures
        final(out)@ == old(out)@ + enc_int(i),
{
    if i >= -128 && i <= 127 {
        out.push(3);
        let byte: u8 = if i >= 0 {
            i as u8
        } else {
            ((i + 256) as u8)
        };
        out.push(byte);
        proof {
            assert(out@ =~= old(out)@ + enc_int(i));
        }
    } else if i >= -0x80000000 && i <= 0x7fffffff {
        out.push(5);
        let u: u32 = if i >= 0 {
            i as u32
        } else {
            ((i + 0x100000000) as u32)
        };
        push_le32(u, out);
        proof {
            assert(out@ =~= old(out)@ + enc_int(i));
        }
    } else {
        out.push(6);
        let bits = f64_bits_from_i64(i);
        push_le64(bits, out);
        proof {
            assert(out@ =~= old(out)@ + enc_int(i));
        }
    }
}

/// Scanned entries of a value within the size limits stay within them.
pub proof fn lemma_scan_entries_ok(v: Val, t: Seq<Seq<char>>)
    requires
        sizes_ok(v),
        entries_ok(t),
    ensures
        entries_ok(scan_val(v, t)),
    decreases v, 2int,
{
    match v {
        Val::Str(s) => {
            if !t.contains(s) {
                assert forall|i: int|
                    0 <= i < tbl_add(t, s).len() implies encode_utf8(
                    #[trigger] tbl_add(t, s)[i],
                ).len() < 0x100000000 by {
                    if i < t.len() {
                        assert(tbl_add(t, s)[i] == t[i]);
                    }
                }
            }
        },
        Val::Arr(es) => {
            lemma_scan_list_entries_ok(es, t);
        },
        Val::Obj(fs) => {
            lemma_scan_keys_entries_ok(fs, t);
            lemma_scan_vals_entries_ok(fs, scan_keys(fs, t));
        },
        _ => {},
    }
}

pub proof fn lemma_scan_list_entries_ok(es: Seq<Val>, t: Seq<Seq<char>>)
    requires
        forall|i: int| 0 <= i < es.len() ==> sizes_ok(#[trigger] es[i]),
        entries_ok(t),
    ensures
        entries_ok(scan_list(es, t)),
    decreases es, 1int,
{
    if es.len() > 0 {
        lemma_scan_entries_ok(es[0], t);
        assert forall|i: int|
            0 <= i < es.drop_first().len() implies sizes_ok(#[trigger] es.drop_first()[i]) by {
            assert(es.drop_first()[i] == es[i + 1]);
        }
        lemma_scan_list_entries_ok(es.drop_first(), scan_val(es[0], t));
    }
}

pub proof fn lemma_scan_keys_entries_ok(fs: Seq<(Seq<char>, Val)>, t: Seq<Seq<char>>)
    requires
        forall|i: int|
            0 <= i < fs.len() ==> encode_utf8((#[trigger] fs[i]).0).len() < 0x100000000,
        entries_ok(t),
    ensures
        entries_ok(scan_keys(fs, t)),
    decreases fs.len(),
{
    if fs.len() > 0 {
        let t1 = tbl_add(t, fs[0].0);
        assert(entries_ok(t1)) by {
            if !t.contains(fs[0].0) {
                assert forall|i: int|
                    0 <= i < t1.len() implies encode_utf8(#[trigger] t1[i]).len()
                    < 0x100000000 by {
                    if i < t.len() {
                        assert(t1[i] == t[i]);
                    } else {
                        assert(t1[i] == fs[0].0);
                    }
                }
            }
        }
        assert forall|i: int|
            0 <= i < fs.drop_first().len() implies encode_utf8(
            (#[trigger] fs.drop_first()[i]).0,
        ).len() < 0x100000000 by {
            assert(fs.drop_first()[i] == fs[i + 1]);
        }
        lemma_scan_keys_entries_ok(fs.drop_first(), t1);
    }
}

pub proof fn lemma_scan_vals_entries_ok(fs: Seq<(Seq<char>, Val)>, t: Seq<Seq<char>>)
    requires
        forall|i: int| 0 <= i < fs.len() ==> sizes_ok((#[trigger] fs[i]).1),
        entries_ok(t),
    ensures
        entries_ok(scan_vals(fs, t)),
    decreases fs, 1int,
{
    if fs.len() > 0 {
        lemma_scan_entries_ok(fs[0].1, t);
        assert forall|i: int|
            0 <= i < fs.drop_first().len() implies sizes_ok((#[trigger] fs.drop_first()[i]).1) by {
            assert(fs.drop_first()[i] == fs[i + 1]);
        }
        lemma_scan_vals_entries_ok(fs.drop_first(), scan_val(fs[0].1, t));
    }
}

} // verus!
