//! Unsigned LEB128 varints: 7 data bits per byte, continuation bit `0x80` on
//! all bytes but the last.

use vstd::prelude::*;
use vstd::arithmetic::div_mod::{lemma_add_mod_noop, lemma_mul_mod_noop_right};

verus! {

/// The LEB128 byte sequence for `n`.
pub open spec fn varint_of(n: nat) -> Seq<u8>
    decreases n,
{
    if n < 128 {
        seq![n as u8]
    } else {
        seq![(n % 128 + 128) as u8] + varint_of(n / 128)
    }
}

/// Reading an LEB128 value from the front of `b`: the raw (unbounded) value
/// and the number of bytes consumed.  Consumption stops at the first byte
/// without the continuation bit, or at the end of the input.
pub open spec fn varint_read(b: Seq<u8>) -> (nat, int)
    decreases b.len(),
{
    if b.len() == 0 {
        (0, 0)
    } else if b[0] < 128 {
        (b[0] as nat, 1)
    } else {
        let (v, c) = varint_read(b.drop_first());
        (((b[0] - 128) + v * 128) as nat, c + 1)
    }
}

/// `128^k`, the weight of the `k`-th varint byte.
pub open spec fn pow128(k: nat) -> nat
    decreases k,
{
    if k == 0 {
        1
    } else {
        128 * pow128((k - 1) as nat)
    }
}

/// A value below `128^k` takes at most `k` varint bytes.
pub proof fn lemma_varint_len_bound(n: nat, k: nat)
    requires
        1 <= k,
        n < pow128(k),
    ensures
        varint_of(n).len() <= k,
    decreases k,
{
    if n >= 128 {
        assert(pow128(k) == 128 * pow128((k - 1) as nat));
        assert(n < 128 * pow128((k - 1) as nat) ==> n / 128 < pow128((k - 1) as nat))
            by (nonlinear_arith);
        lemma_varint_len_bound(n / 128, (k - 1) as nat);
    }
}

pub proof fn lemma_varint_of_len(n: nat)
    ensures
        1 <= varint_of(n).len(),
        n < 0x800000000 ==> varint_of(n).len() <= 5,
        varint_of(n).last() < 128,
        forall|i: int| 0 <= i < varint_of(n).len() - 1 ==> varint_of(n)[i] >= 128,
    decreases n,
{
    if n < 0x800000000 {
        assert(pow128(0) == 1);
        assert(pow128(1) == 128);
        assert(pow128(2) == 16384);
        assert(pow128(3) == 2097152);
        assert(pow128(4) == 268435456);
        assert(pow128(5) == 0x800000000);
        lemma_varint_len_bound(n, 5);
    }
    if n >= 128 {
        lemma_varint_of_len(n / 128);
        assert forall|i: int| 0 <= i < varint_of(n).len() - 1 implies varint_of(n)[i] >= 128 by {
            if i > 0 {
                assert(varint_of(n)[i] == varint_of(n / 128)[i - 1]);
            }
        }
    }
}

/// A varint followed by anything reads back as the value it was built from.
pub proof fn lemma_varint_roundtrip(n: nat, rest: Seq<u8>)
    ensures
        varint_read(varint_of(n) + rest) == ((n, varint_of(n).len() as int)),
    decreases n,
{
    let b = varint_of(n) + rest;
    if n < 128 {
        assert(b[0] == n as u8);
    } else {
        lemma_varint_roundtrip(n / 128, rest);
        assert(b[0] == (n % 128 + 128) as u8);
        assert(b.drop_first() =~= varint_of(n / 128) + rest);
        assert(n % 128 + (n / 128) * 128 == n) by (nonlinear_arith);
    }
}

/// Encode an unsigned integer as LEB128 varint bytes.
pub fn encode_varint(val: u32) -> (out: Vec<u8>)
    ensures
        out@ == varint_of(val as nat),
{
    let mut out: Vec<u8> = Vec::new();
    let mut cur: u32 = val;
    loop
        invariant_except_break
            out@ + varint_of(cur as nat) =~= varint_of(val as nat),
        ensures
            out@ == varint_of(val as nat),
        decreases cur,
    {
        let byte: u8 = (cur % 128) as u8;
        let next: u32 = cur / 128;
        if next > 0 {
            out.push(byte + 128);
            proof {
                assert(out@ + varint_of(next as nat) =~= varint_of(val as nat));
            }
            cur = next;
        } else {
            out.push(byte);
            proof {
                assert(out@ =~= varint_of(val as nat));
            }
            break;
        }
    }
    out
}

/// Decode an LEB128 varint from the front of a byte slice, returning the
/// value (truncated to 32 bits) and the number of bytes consumed.
pub fn decode_varint(bytes: &[u8]) -> (r: (u32, usize))
    ensures
        r.0 as nat == varint_read(bytes@).0 % 0x100000000,
        r.1 as int == varint_read(bytes@).1,
{
    let n = bytes.len();
    // first pass: find the terminating byte
    let mut c: usize = 0;
    while c < n && bytes[c] >= 128
        invariant
            0 <= c <= n,
            n == bytes@.len(),
            forall|k: int| 0 <= k < c ==> bytes@[k] >= 128,
        decreases n - c,
    {
        c = c + 1;
    }
    let consumed: usize = if c < n {
        c + 1
    } else {
        c
    };
    proof {
        lemma_read_shape(bytes@, c as int, consumed as int);
    }
    // second pass: fold the digits from the last byte back to the first
    let mut acc: u64 = 0;
    let mut j: usize = consumed;
    while j > 0
        invariant
            0 <= j <= consumed <= n,
            n == bytes@.len(),
            0 <= c <= n,
            consumed == if c < n {
                c + 1int
            } else {
                c as int
            },
            forall|k: int| 0 <= k < c ==> bytes@[k] >= 128,
            c < n ==> bytes@[c as int] < 128,
            j < consumed ==> acc == varint_read(bytes@.skip(j as int)).0 % 0x100000000,
            j == consumed ==> acc == 0,
            acc < 0x100000000,
        decreases j,
    {
        j = j - 1;
        let lo: u64 = (bytes[j] % 128) as u64;
        proof {
            assert(bytes@.skip(j as int).drop_first() =~= bytes@.skip(j as int + 1));
        }
        if c < n && j == c {
            acc = lo;
            proof {
                assert(varint_read(bytes@.skip(j as int)).0 == bytes@[j as int] as nat);
            }
        } else {
            let ghost prev = varint_read(bytes@.skip(j as int + 1)).0;
            proof {
                if j + 1 == consumed && consumed == n {
                    assert(bytes@.skip(j as int + 1) =~= Seq::<u8>::empty());
                }
                assert(bytes@[j as int] >= 128);
                assert(varint_read(bytes@.skip(j as int)).0 == (bytes@[j as int] - 128) + prev
                    * 128);
                assert(acc == prev % 0x100000000);
            }
            acc = (lo + 128 * acc) % 0x100000000;
            proof {
                lemma_fold_mod(lo as nat, prev, acc as nat);
            }
        }
    }
    proof {
        assert(bytes@.skip(0) =~= bytes@);
    }
    (acc as u32, consumed)
}

/// The shape found by the scan matches what `varint_read` consumes.
proof fn lemma_read_shape(b: Seq<u8>, c: int, consumed: int)
    requires
        0 <= c <= b.len(),
        forall|k: int| 0 <= k < c ==> b[k] >= 128,
        c < b.len() ==> b[c] < 128,
        consumed == if c < b.len() {
            c + 1
        } else {
            c
        },
    ensures
        varint_read(b).1 == consumed,
    decreases b.len(),
{
    if b.len() == 0 {
    } else if b[0] < 128 {
        assert(c == 0);
    } else {
        lemma_read_shape(b.drop_first(), c - 1, consumed - 1);
    }
}

/// Folding one digit keeps the truncated value right.
proof fn lemma_fold_mod(lo: nat, prev: nat, result: nat)
    requires
        lo < 128,
        result == (lo + 128 * (prev % 0x100000000)) % 0x100000000,
    ensures
        result == (lo + prev * 128) % 0x100000000,
{
    let m: int = 0x100000000;
    lemma_mul_mod_noop_right(128, prev as int, m);
    lemma_add_mod_noop(lo as int, 128 * ((prev as int) % m), m);
    lemma_add_mod_noop(lo as int, 128 * (prev as int), m);
    assert(128 * (prev as int) == (prev as int) * 128) by (nonlinear_arith);
}

} // verus!
