//! The TENS-Text codec: an array of uniform records as a human-readable,
//! newline-delimited document with directive lines, one schema line, an
//! optional dictionary of repeated strings, and indented field lines.

use vstd::prelude::*;
use crate::floatbits::{
    f_nan,
    f_special,
    f_neg,
    f_neg_zero,
    float_big_int,
    float_nan,
    float_special,
    float_negative,
    float_neg_zero,
    float_as_big_int,
};
use crate::strutil::{
    chars_lt,
    chars_le,
    is_ws,
    is_ws_exec,
    str_chars,
    chars_string,
    chars_lt_exec,
    chars_le_exec,
    chars_eq_exec,
};
use crate::value::{Value, Val, val_of, vals_of, pairs_of, lemma_vals_of_index, lemma_pairs_of_index};

verus! {

/// A text-encode failure.
#[derive(Debug, PartialEq, Eq, Structural)]
pub enum TextError {
    /// The root is neither an array of records nor a single object.
    Schema,
    /// A double that is not NaN, an infinity, a zero, or an exact integer of
    /// magnitude at most `2^53`: its decimal text would need float
    /// formatting, which this library does not hold.
    Float { bits: u64 },
}

pub open spec fn is_digit(c: char) -> bool {
    ('0' as u32) <= (c as u32) <= ('9' as u32)
}

pub fn is_digit_exec(c: char) -> (r: bool)
    ensures
        r == is_digit(c),
{
    ('0' as u32) <= (c as u32) && (c as u32) <= ('9' as u32)
}

pub open spec fn all_digits(s: Seq<char>) -> bool {
    forall|i: int| 0 <= i < s.len() ==> is_digit(#[trigger] s[i])
}

pub fn all_digits_exec(v: &Vec<char>, from: usize) -> (r: bool)
    requires
        from <= v@.len(),
    ensures
        r == all_digits(v@.skip(from as int)),
{
    let mut i: usize = from;
    while i < v.len()
        invariant
            from <= i <= v@.len(),
            forall|k: int| from <= k < i ==> is_digit(#[trigger] v@[k]),
        decreases v@.len() - i,
    {
        if !is_digit_exec(v[i]) {
            proof {
                assert(v@.skip(from as int)[i - from] == v@[i as int]);
            }
            return false;
        }
        i = i + 1;
    }
    proof {
        assert forall|k: int| 0 <= k < v@.skip(from as int).len() implies is_digit(
            #[trigger] v@.skip(from as int)[k],
        ) by {
            assert(v@.skip(from as int)[k] == v@[k + from]);
        }
    }
    true
}

/// The value of a digit run.
pub open spec fn digits_val(s: Seq<char>) -> nat
    decreases s.len(),
{
    if s.len() == 0 {
        0
    } else {
        (digits_val(s.drop_last()) * 10 + (s.last() as u32 - 48)) as nat
    }
}

/// The decimal digits of `n`, most significant first.
pub open spec fn dec_of_nat(n: nat) -> Seq<char>
    decreases n,
{
    if n < 10 {
        seq![((n + 48) as u8) as char]
    } else {
        dec_of_nat(n / 10).push(((n % 10 + 48) as u8) as char)
    }
}

/// The decimal text of an `i64`, with a leading minus when negative.
pub open spec fn dec_of_i64(i: i64) -> Seq<char> {
    if i < 0 {
        seq!['-'] + dec_of_nat(crate::floatbits::abs_u64(i))
    } else {
        dec_of_nat(i as nat)
    }
}

/// Render an unsigned value in decimal.
pub fn nat_string_push(n: u64, out: &mut Vec<char>)
    ensures
        final(out)@ == old(out)@ + dec_of_nat(n as nat),
{
    let mut tmp: Vec<char> = Vec::new();
    let mut cur: u64 = n;
    let ghost mut g: Seq<char> = Seq::empty();
    proof {
        assert(dec_of_nat(n as nat) =~= dec_of_nat(cur as nat) + g);
    }
    loop
        invariant_except_break
            dec_of_nat(n as nat) =~= dec_of_nat(cur as nat) + g,
            tmp@.len() == g.len(),
            forall|k: int| 0 <= k < g.len() ==> g[k] == tmp@[g.len() - 1 - k],
        ensures
            dec_of_nat(n as nat) =~= g,
            tmp@.len() == g.len(),
            forall|k: int| 0 <= k < g.len() ==> g[k] == tmp@[g.len() - 1 - k],
        decreases cur,
    {
        let d: u8 = (cur % 10) as u8 + 48;
        tmp.push(d as char);
        proof {
            g = seq![(d as char)] + g;
        }
        if cur < 10 {
            proof {
                assert(dec_of_nat(cur as nat) == seq![(d as char)]);
                assert(dec_of_nat(n as nat) =~= g);
            }
            break;
        }
        proof {
            assert(dec_of_nat(cur as nat) == dec_of_nat((cur as nat) / 10).push((d as char)));
            assert(dec_of_nat((cur as nat) / 10) + (seq![(d as char)] + g.drop_first())
                =~= dec_of_nat(cur as nat) + g.drop_first());
        }
        cur = cur / 10;
    }
    let mut j: usize = tmp.len();
    while j > 0
        invariant
            0 <= j <= tmp@.len(),
            tmp@.len() == g.len(),
            forall|k: int| 0 <= k < g.len() ==> g[k] == tmp@[g.len() - 1 - k],
            out@ =~= old(out)@ + g.take(g.len() - j),
        decreases j,
    {
        j = j - 1;
        out.push(tmp[j]);
        proof {
            assert(g.take(g.len() - j) =~= g.take(g.len() - j - 1).push(g[g.len() - 1 - j]));
        }
    }
    proof {
        assert(g.take(g.len() as int) =~= g);
        assert(out@ =~= old(out)@ + dec_of_nat(n as nat));
    }
}

/// Render an `i64` in decimal.
pub fn i64_string_push(i: i64, out: &mut Vec<char>)
    ensures
        final(out)@ == old(out)@ + dec_of_i64(i),
{
    if i < 0 {
        out.push('-');
        let m: u64 = ((-(i + 1)) as u64) + 1;
        proof {
            assert(m == crate::floatbits::abs_u64(i));
        }
        nat_string_push(m, out);
        proof {
            assert(out@ =~= old(out)@ + dec_of_i64(i));
        }
    } else {
        nat_string_push(i as u64, out);
    }
}

/// Lowercase folding for ASCII letters, used only to match the spellings
/// `inf`, `infinity` and `nan` case-insensitively.
pub open spec fn lower(c: char) -> char {
    if ('A' as u32) <= (c as u32) <= ('Z' as u32) {
        (((c as u32) + 32) as u8) as char
    } else {
        c
    }
}

pub open spec fn lower_seq(s: Seq<char>) -> Seq<char> {
    Seq::new(s.len(), |i: int| lower(s[i]))
}

/// The special spellings the float grammar accepts.
pub open spec fn is_special_number_body(s: Seq<char>) -> bool {
    lower_seq(s) == "inf"@ || lower_seq(s) == "infinity"@ || lower_seq(s) == "nan"@
}

/// The first index at or after `from` that does not hold a digit.
pub open spec fn digits_end(s: Seq<char>, from: int) -> int
    decreases s.len() - from,
{
    if 0 <= from < s.len() && is_digit(s[from]) {
        digits_end(s, from + 1)
    } else {
        from
    }
}

/// Whether `s` matches the grammar of a decimal floating literal after the
/// optional sign: integer digits, an optional dot with fraction digits, an
/// optional exponent `(e|E) [sign] digits`, with at least one digit before
/// the exponent.
pub open spec fn is_number_body(s: Seq<char>) -> bool {
    let d1 = digits_end(s, 0);
    let frac_end = if d1 < s.len() && s[d1] == '.' {
        digits_end(s, d1 + 1)
    } else {
        d1
    };
    let has_digits = d1 > 0 || (d1 < s.len() && s[d1] == '.' && frac_end > d1 + 1);
    if frac_end == s.len() {
        has_digits
    } else if s[frac_end] == 'e' || s[frac_end] == 'E' {
        has_digits && exp_tail_ok(s.skip(frac_end + 1))
    } else {
        false
    }
}

/// An exponent tail: an optional sign then one or more digits.
pub open spec fn exp_tail_ok(t: Seq<char>) -> bool {
    if t.len() == 0 {
        false
    } else if t[0] == '+' || t[0] == '-' {
        t.len() > 1 && all_digits(t.drop_first())
    } else {
        all_digits(t)
    }
}

/// Whether `s` parses wholly as a number, per the float grammar: an
/// optional sign, then a decimal literal or one of the special spellings.
pub open spec fn is_number_token(s: Seq<char>) -> bool {
    if s.len() == 0 {
        false
    } else {
        let body = if s[0] == '+' || s[0] == '-' {
            s.drop_first()
        } else {
            s
        };
        body.len() > 0 && (is_special_number_body(body) || is_number_body(body))
    }
}

pub fn digits_end_exec(v: &Vec<char>, from: usize) -> (r: usize)
    requires
        from <= v@.len(),
    ensures
        r == digits_end(v@, from as int),
        from <= r <= v@.len(),
{
    let mut i: usize = from;
    while i < v.len() && is_digit_exec(v[i])
        invariant
            from <= i <= v@.len(),
            digits_end(v@, from as int) == digits_end(v@, i as int),
        decreases v@.len() - i,
    {
        i = i + 1;
    }
    i
}

/// Copy a suffix of a character vector.
pub fn copy_suffix(v: &Vec<char>, from: usize) -> (r: Vec<char>)
    requires
        from <= v@.len(),
    ensures
        r@ == v@.skip(from as int),
{
    let mut out: Vec<char> = Vec::new();
    let mut i: usize = from;
    while i < v.len()
        invariant
            from <= i <= v@.len(),
            out@ =~= v@.subrange(from as int, i as int),
        decreases v@.len() - i,
    {
        out.push(v[i]);
        proof {
            assert(v@.subrange(from as int, i + 1) =~= v@.subrange(from as int, i as int).push(
                v@[i as int],
            ));
        }
        i = i + 1;
    }
    proof {
        assert(v@.subrange(from as int, v@.len() as int) =~= v@.skip(from as int));
    }
    out
}

/// Whether the body spells `inf`, `infinity` or `nan`, case-insensitively.
fn is_special_body_exec(body: &Vec<char>) -> (r: bool)
    ensures
        r == is_special_number_body(body@),
{
    proof {
        reveal_strlit("inf");
        reveal_strlit("infinity");
        reveal_strlit("nan");
    }
    let mut low: Vec<char> = Vec::new();
    let mut i: usize = 0;
    while i < body.len()
        invariant
            0 <= i <= body@.len(),
            low@ =~= lower_seq(body@).take(i as int),
        decreases body@.len() - i,
    {
        let c = body[i];
        let u = c as u32;
        if 65 <= u && u <= 90 {
            proof {
                vstd::utf8::char_is_scalar(c);
            }
            let lc: char = char_from_u32(u + 32);
            low.push(lc);
        } else {
            low.push(c);
        }
        proof {
            assert(lower_seq(body@).take(i + 1) =~= lower_seq(body@).take(i as int).push(
                lower(body@[i as int]),
            ));
        }
        i = i + 1;
    }
    proof {
        assert(lower_seq(body@).take(body@.len() as int) =~= lower_seq(body@));
    }
    let inf_chars: Vec<char> = vec!['i', 'n', 'f'];
    let infinity_chars: Vec<char> = vec!['i', 'n', 'f', 'i', 'n', 'i', 't', 'y'];
    let nan_chars: Vec<char> = vec!['n', 'a', 'n'];
    proof {
        assert(inf_chars@ =~= "inf"@);
        assert(infinity_chars@ =~= "infinity"@);
        assert(nan_chars@ =~= "nan"@);
    }
    chars_eq_exec(&low, &inf_chars) || chars_eq_exec(&low, &infinity_chars) || chars_eq_exec(
        &low,
        &nan_chars,
    )
}

/// Whether the body matches the decimal literal grammar.
fn is_number_body_exec(body: &Vec<char>) -> (r: bool)
    ensures
        r == is_number_body(body@),
{
    let d1 = digits_end_exec(body, 0);
    let frac_end: usize = if d1 < body.len() && body[d1] == '.' {
        digits_end_exec(body, d1 + 1)
    } else {
        d1
    };
    let has_digits = d1 > 0 || (d1 < body.len() && body[d1] == '.' && frac_end > d1 + 1);
    if frac_end == body.len() {
        return has_digits;
    }
    let ec = body[frac_end];
    if !(ec == 'e' || ec == 'E') {
        return false;
    }
    if !has_digits {
        return false;
    }
    let tstart = frac_end + 1;
    let ghost tail = body@.skip(frac_end + 1);
    if tstart >= body.len() {
        proof {
            assert(tail =~= Seq::<char>::empty());
        }
        return false;
    }
    proof {
        assert(tail[0] == body@[tstart as int]);
    }
    let t0 = body[tstart];
    if t0 == '+' || t0 == '-' {
        if tstart + 1 >= body.len() {
            proof {
                assert(tail.len() == 1);
            }
            return false;
        }
        let r = all_digits_exec(body, tstart + 1);
        proof {
            assert(tail.drop_first() =~= body@.skip(tstart as int + 1));
        }
        r
    } else {
        all_digits_exec(body, tstart)
    }
}

/// Whether the characters parse wholly as a number per the float grammar.
pub fn is_number_token_exec(v: &Vec<char>) -> (r: bool)
    ensures
        r == is_number_token(v@),
{
    if v.len() == 0 {
        return false;
    }
    let c0 = v[0];
    let start: usize = if c0 == '+' || c0 == '-' {
        1
    } else {
        0
    };
    let body = copy_suffix(v, start);
    proof {
        if start == 1 {
            assert(v@.skip(1) =~= v@.drop_first());
        } else {
            assert(v@.skip(0) =~= v@);
        }
    }
    if body.len() == 0 {
        return false;
    }
    is_special_body_exec(&body) || is_number_body_exec(&body)
}

/// The characters that force quoting when they occur anywhere in a token.
pub open spec fn is_special_char(c: char) -> bool {
    c == '"' || c == '\\' || c == '|' || c == '>' || c == ',' || c == '=' || c == '{' || c == '}'
        || c == '[' || c == ']' || c == '@' || c == '#'
}

pub fn is_special_char_exec(c: char) -> (r: bool)
    ensures
        r == is_special_char(c),
{
    c == '"' || c == '\\' || c == '|' || c == '>' || c == ',' || c == '=' || c == '{' || c == '}'
        || c == '[' || c == ']' || c == '@' || c == '#'
}

/// A raw token needs quoting when it is empty; spells `_`, `true` or
/// `false`; looks like a dictionary reference (`@` or `#` then digits);
/// parses wholly as a number; or holds whitespace or a special character.
pub open spec fn needs_quoting(s: Seq<char>) -> bool {
    ||| s.len() == 0
    ||| s == "_"@
    ||| s == "true"@
    ||| s == "false"@
    ||| (s.len() >= 2 && (s[0] == '@' || s[0] == '#') && all_digits(s.drop_first()))
    ||| is_number_token(s)
    ||| exists|i: int| 0 <= i < s.len() && (is_ws(#[trigger] s[i]) || is_special_char(s[i]))
}

pub fn needs_quoting_exec(v: &Vec<char>) -> (r: bool)
    ensures
        r == needs_quoting(v@),
{
    proof {
        reveal_strlit("_");
        reveal_strlit("true");
        reveal_strlit("false");
    }
    if v.len() == 0 {
        return true;
    }
    let underscore: Vec<char> = vec!['_'];
    let true_chars: Vec<char> = vec!['t', 'r', 'u', 'e'];
    let false_chars: Vec<char> = vec!['f', 'a', 'l', 's', 'e'];
    proof {
        assert(underscore@ =~= "_"@);
        assert(true_chars@ =~= "true"@);
        assert(false_chars@ =~= "false"@);
    }
    if chars_eq_exec(v, &underscore) || chars_eq_exec(v, &true_chars) || chars_eq_exec(
        v,
        &false_chars,
    ) {
        return true;
    }
    if v.len() >= 2 && (v[0] == '@' || v[0] == '#') {
        let rest_digits = all_digits_exec(v, 1);
        proof {
            assert(v@.skip(1) =~= v@.drop_first());
        }
        if rest_digits {
            return true;
        }
    }
    if is_number_token_exec(v) {
        return true;
    }
    let mut i: usize = 0;
    while i < v.len()
        invariant
            0 <= i <= v@.len(),
            forall|k: int| 0 <= k < i ==> !(is_ws(#[trigger] v@[k]) || is_special_char(v@[k])),
        decreases v@.len() - i,
    {
        let c = v[i];
        if is_ws_exec(c) || is_special_char_exec(c) {
            return true;
        }
        i = i + 1;
    }
    false
}

/// The escape of one character inside quotes.
pub open spec fn esc_char(c: char) -> Seq<char> {
    if c == '"' {
        seq!['\\', '"']
    } else if c == '\\' {
        seq!['\\', '\\']
    } else if c == '\n' {
        seq!['\\', 'n']
    } else if c == '\r' {
        seq!['\\', 'r']
    } else if c == '\t' {
        seq!['\\', 't']
    } else {
        seq![c]
    }
}

pub open spec fn esc_seq(s: Seq<char>) -> Seq<char>
    decreases s.len(),
{
    if s.len() == 0 {
        Seq::empty()
    } else {
        esc_char(s[0]) + esc_seq(s.drop_first())
    }
}

/// A quoted token: wrapped in `"` with the five escapes applied.
pub open spec fn quote_of(s: Seq<char>) -> Seq<char> {
    seq!['"'] + esc_seq(s) + seq!['"']
}

pub proof fn lemma_esc_snoc(t: Seq<char>, c: char)
    ensures
        esc_seq(t.push(c)) =~= esc_seq(t) + esc_char(c),
    decreases t.len(),
{
    if t.len() == 0 {
        assert(t.push(c)[0] == c);
        assert(t.push(c).drop_first() =~= Seq::<char>::empty());
        assert(esc_seq(Seq::<char>::empty()) == Seq::<char>::empty());
        assert(t =~= Seq::<char>::empty());
        assert(esc_seq(t.push(c)) == esc_char(c) + esc_seq(Seq::<char>::empty()));
        assert(esc_seq(t.push(c)) =~= esc_seq(t) + esc_char(c));
    } else {
        assert(t.push(c)[0] == t[0]);
        assert(t.push(c).drop_first() =~= t.drop_first().push(c));
        lemma_esc_snoc(t.drop_first(), c);
        assert(esc_seq(t.push(c)) == esc_char(t[0]) + esc_seq(t.drop_first().push(c)));
        assert(esc_seq(t) == esc_char(t[0]) + esc_seq(t.drop_first()));
        assert(esc_char(t[0]) + (esc_seq(t.drop_first()) + esc_char(c)) =~= (esc_char(t[0])
            + esc_seq(t.drop_first())) + esc_char(c));
    }
}

/// Append the quoted form of the characters.
pub fn quote_push(v: &Vec<char>, out: &mut Vec<char>)
    ensures
        final(out)@ == old(out)@ + quote_of(v@),
{
    out.push('"');
    let ghost base = out@;
    let mut i: usize = 0;
    while i < v.len()
        invariant
            0 <= i <= v@.len(),
            out@ =~= base + esc_seq(v@.take(i as int)),
        decreases v@.len() - i,
    {
        let c = v[i];
        if c == '"' {
            out.push('\\');
            out.push('"');
        } else if c == '\\' {
            out.push('\\');
            out.push('\\');
        } else if c == '\n' {
            out.push('\\');
            out.push('n');
        } else if c == '\r' {
            out.push('\\');
            out.push('r');
        } else if c == '\t' {
            out.push('\\');
            out.push('t');
        } else {
            out.push(c);
        }
        proof {
            assert(v@.take(i + 1) =~= v@.take(i as int).push(v@[i as int]));
            lemma_esc_snoc(v@.take(i as int), v@[i as int]);
            assert(out@ =~= base + esc_seq(v@.take(i + 1)));
        }
        i = i + 1;
    }
    out.push('"');
    proof {
        assert(v@.take(v@.len() as int) =~= v@);
        assert(out@ =~= old(out)@ + quote_of(v@));
    }
}

/// The type label the schema line carries for a field's first value.
pub open spec fn type_label(v: Val) -> Seq<char> {
    match v {
        Val::Null => "null"@,
        Val::Bool(_) => "bool"@,
        Val::Int(_) => "num"@,
        Val::Float(_) => "num"@,
        Val::Str(_) => "str"@,
        Val::Arr(_) => "str[]"@,
        Val::Obj(_) => "str"@,
    }
}

/// Infer a TENS-Text type label from a value.
pub fn infer_type(v: &Value) -> (r: &'static str)
    ensures
        r@ == type_label(v@),
{
    match v {
        Value::Null => "null",
        Value::Bool(_) => "bool",
        Value::Int(_) => "num",
        Value::Float(_) => "num",
        Value::Str(_) => "str",
        Value::Arr(_) => "str[]",
        Value::Obj(_) => "str",
    }
}

/// Rust's `i64` parse: an optional sign, then digits, overflow rejected.
pub open spec fn parse_i64_spec(s: Seq<char>) -> Option<i64> {
    if s.len() == 0 {
        Option::None
    } else {
        let neg = s[0] == '-';
        let ds = if s[0] == '-' || s[0] == '+' {
            s.drop_first()
        } else {
            s
        };
        if ds.len() == 0 || !all_digits(ds) {
            Option::None
        } else {
            let n = digits_val(ds);
            if neg {
                if n <= 0x8000000000000000 {
                    Option::Some((-(n as int)) as i64)
                } else {
                    Option::None
                }
            } else {
                if n < 0x8000000000000000 {
                    Option::Some(n as i64)
                } else {
                    Option::None
                }
            }
        }
    }
}

/// Digit runs only grow in value.
pub proof fn lemma_digits_val_mono(ds: Seq<char>, j: int)
    requires
        0 <= j <= ds.len(),
        all_digits(ds),
    ensures
        digits_val(ds.take(j)) <= digits_val(ds),
    decreases ds.len(),
{
    if j < ds.len() {
        assert(ds.drop_last().take(j) =~= ds.take(j));
        assert(all_digits(ds.drop_last())) by {
            assert forall|k: int| 0 <= k < ds.drop_last().len() implies is_digit(
                #[trigger] ds.drop_last()[k],
            ) by {
                assert(ds.drop_last()[k] == ds[k]);
            }
        }
        lemma_digits_val_mono(ds.drop_last(), j);
        let q = digits_val(ds.drop_last());
        assert(is_digit(ds.last()));
        assert(ds.last() as u32 >= 48);
        assert(digits_val(ds) == q * 10 + (ds.last() as u32 - 48));
        assert(q <= q * 10) by (nonlinear_arith);
    } else {
        assert(ds.take(j) =~= ds);
    }
}

/// Parse an `i64` from characters, as Rust's `from_str` does.
#[verifier::loop_isolation(false)]
pub fn parse_i64_exec(v: &Vec<char>) -> (r: Option<i64>)
    ensures
        r == parse_i64_spec(v@),
{
    if v.len() == 0 {
        return Option::None;
    }
    let c0 = v[0];
    let neg = c0 == '-';
    let start: usize = if c0 == '-' || c0 == '+' {
        1
    } else {
        0
    };
    let ghost ds = v@.skip(start as int);
    proof {
        if start == 1 {
            assert(ds =~= v@.drop_first());
        } else {
            assert(ds =~= v@);
        }
    }
    if v.len() == start {
        return Option::None;
    }
    let mut acc: u64 = 0;
    let mut i: usize = start;
    while i < v.len()
        invariant
            start <= i <= v@.len(),
            acc <= 0x8000000000000000,
            acc == digits_val(ds.take(i - start)),
            all_digits(ds.take(i - start)),
        decreases v@.len() - i,
    {
        let c = v[i];
        if !is_digit_exec(c) {
            proof {
                assert(ds[i - start] == v@[i as int]);
            }
            return Option::None;
        }
        let d: u64 = (c as u32 as u64) - 48;
        proof {
            assert(ds.take(i - start + 1) =~= ds.take(i - start).push(v@[i as int]));
            assert(ds.take(i - start + 1).drop_last() =~= ds.take(i - start));
        }
        if acc > (0x8000000000000000u64 - d) / 10 {
            proof {
                assert(digits_val(ds.take(i - start + 1)) == acc * 10 + d);
                assert(acc * 10 + d > 0x8000000000000000) by (nonlinear_arith)
                    requires
                        acc > (0x8000000000000000u64 - d) / 10,
                        d < 10,
                ;
                if all_digits(ds) {
                    lemma_digits_val_mono(ds, i - start + 1);
                    assert(digits_val(ds) > 0x8000000000000000);
                }
            }
            return Option::None;
        }
        proof {
            assert(acc * 10 + d <= 0x8000000000000000) by (nonlinear_arith)
                requires
                    acc <= (0x8000000000000000u64 - d) / 10,
                    d < 10,
            ;
        }
        acc = acc * 10 + d;
        i = i + 1;
    }
    proof {
        assert(ds.take(ds.len() as int) =~= ds);
    }
    if neg {
        if acc == 0x8000000000000000 {
            Option::Some(i64::MIN)
        } else {
            Option::Some(-(acc as i64))
        }
    } else {
        if acc >= 0x8000000000000000 {
            Option::None
        } else {
            Option::Some(acc as i64)
        }
    }
}

/// The escape of one character inside a JSON string.
pub open spec fn json_esc_char(c: char) -> Seq<char> {
    if c == '"' {
        seq!['\\', '"']
    } else if c == '\\' {
        seq!['\\', '\\']
    } else if c == '\n' {
        seq!['\\', 'n']
    } else if c == '\r' {
        seq!['\\', 'r']
    } else if c == '\t' {
        seq!['\\', 't']
    } else if c == '\u{8}' {
        seq!['\\', 'b']
    } else if c == '\u{c}' {
        seq!['\\', 'f']
    } else if (c as u32) < 0x20 {
        seq!['\\', 'u', '0', '0', crate::hashing::hex_digit(((c as u32) / 16) as u8),
            crate::hashing::hex_digit(((c as u32) % 16) as u8)]
    } else {
        seq![c]
    }
}

pub open spec fn json_esc_seq(s: Seq<char>) -> Seq<char>
    decreases s.len(),
{
    if s.len() == 0 {
        Seq::empty()
    } else {
        json_esc_char(s[0]) + json_esc_seq(s.drop_first())
    }
}

pub open spec fn json_quote_of(s: Seq<char>) -> Seq<char> {
    seq!['"'] + json_esc_seq(s) + seq!['"']
}

/// The JSON text of a value: how a nested array or object is carried as an
/// opaque string at field level.
pub open spec fn json_of(v: Val) -> Result<Seq<char>, TextError>
    decreases v, 1int,
{
    match v {
        Val::Null => Ok("null"@),
        Val::Bool(bv) => if bv {
            Ok("true"@)
        } else {
            Ok("false"@)
        },
        Val::Int(i) => Ok(dec_of_i64(i)),
        Val::Float(bits) => if f_neg_zero(bits) {
            Ok("-0.0"@)
        } else {
            match float_big_int(bits) {
                Option::Some(n) => if -9007199254740992 <= n <= 9007199254740992 {
                    Ok(dec_of_i64(n) + ".0"@)
                } else {
                    Err(TextError::Float { bits })
                },
                Option::None => Err(TextError::Float { bits }),
            }
        },
        Val::Str(s) => Ok(json_quote_of(s)),
        Val::Arr(es) => match json_items(es) {
            Ok(j) => Ok(seq!['['] + j + seq![']']),
            Err(e) => Err(e),
        },
        Val::Obj(fs) => match json_fields(fs) {
            Ok(j) => Ok(seq!['{'] + j + seq!['}']),
            Err(e) => Err(e),
        },
    }
}

pub open spec fn json_items(es: Seq<Val>) -> Result<Seq<char>, TextError>
    decreases es, 0int,
{
    if es.len() == 0 {
        Ok(Seq::empty())
    } else {
        match json_of(es[0]) {
            Ok(h) => if es.len() == 1 {
                Ok(h)
            } else {
                match json_items(es.drop_first()) {
                    Ok(t) => Ok(h + seq![','] + t),
                    Err(e) => Err(e),
                }
            },
            Err(e) => Err(e),
        }
    }
}

pub open spec fn json_fields(fs: Seq<(Seq<char>, Val)>) -> Result<Seq<char>, TextError>
    decreases fs, 0int,
{
    if fs.len() == 0 {
        Ok(Seq::empty())
    } else {
        match json_of(fs[0].1) {
            Ok(h) => {
                let entry = json_quote_of(fs[0].0) + seq![':'] + h;
                if fs.len() == 1 {
                    Ok(entry)
                } else {
                    match json_fields(fs.drop_first()) {
                        Ok(t) => Ok(entry + seq![','] + t),
                        Err(e) => Err(e),
                    }
                }
            },
            Err(e) => Err(e),
        }
    }
}

pub proof fn lemma_json_esc_snoc(t: Seq<char>, c: char)
    ensures
        json_esc_seq(t.push(c)) =~= json_esc_seq(t) + json_esc_char(c),
    decreases t.len(),
{
    if t.len() == 0 {
        assert(t.push(c)[0] == c);
        assert(t.push(c).drop_first() =~= Seq::<char>::empty());
        assert(json_esc_seq(Seq::<char>::empty()) == Seq::<char>::empty());
        assert(t =~= Seq::<char>::empty());
        assert(json_esc_seq(t.push(c)) == json_esc_char(c) + json_esc_seq(Seq::<char>::empty()));
        assert(json_esc_seq(t.push(c)) =~= json_esc_seq(t) + json_esc_char(c));
    } else {
        assert(t.push(c)[0] == t[0]);
        assert(t.push(c).drop_first() =~= t.drop_first().push(c));
        lemma_json_esc_snoc(t.drop_first(), c);
        assert(json_esc_seq(t.push(c)) == json_esc_char(t[0]) + json_esc_seq(
            t.drop_first().push(c),
        ));
        assert(json_esc_seq(t) == json_esc_char(t[0]) + json_esc_seq(t.drop_first()));
        assert(json_esc_char(t[0]) + (json_esc_seq(t.drop_first()) + json_esc_char(c))
            =~= (json_esc_char(t[0]) + json_esc_seq(t.drop_first())) + json_esc_char(c));
    }
}

/// Append the JSON-quoted form of the characters.
pub fn json_quote_push(v: &Vec<char>, out: &mut Vec<char>)
    ensures
        final(out)@ == old(out)@ + json_quote_of(v@),
{
    out.push('"');
    let ghost base = out@;
    let mut i: usize = 0;
    while i < v.len()
        invariant
            0 <= i <= v@.len(),
            out@ =~= base + json_esc_seq(v@.take(i as int)),
        decreases v@.len() - i,
    {
        let c = v[i];
        let u = c as u32;
        proof {
            vstd::utf8::char_u32_cast(c, u);
        }
        if c == '"' {
            out.push('\\');
            out.push('"');
        } else if c == '\\' {
            out.push('\\');
            out.push('\\');
        } else if c == '\n' {
            out.push('\\');
            out.push('n');
        } else if c == '\r' {
            out.push('\\');
            out.push('r');
        } else if c == '\t' {
            out.push('\\');
            out.push('t');
        } else if u == 8 {
            out.push('\\');
            out.push('b');
        } else if u == 12 {
            out.push('\\');
            out.push('f');
        } else if u < 0x20 {
            out.push('\\');
            out.push('u');
            out.push('0');
            out.push('0');
            out.push(((u / 16) as u8 + if (u / 16) < 10 {
                48
            } else {
                87
            }) as char);
            out.push(((u % 16) as u8 + if (u % 16) < 10 {
                48
            } else {
                87
            }) as char);
        } else {
            out.push(c);
        }
        proof {
            assert(v@.take(i + 1) =~= v@.take(i as int).push(v@[i as int]));
            lemma_json_esc_snoc(v@.take(i as int), v@[i as int]);
            assert(out@ =~= base + json_esc_seq(v@.take(i + 1)));
        }
        i = i + 1;
    }
    out.push('"');
    proof {
        assert(v@.take(v@.len() as int) =~= v@);
        assert(out@ =~= old(out)@ + json_quote_of(v@));
    }
}

/// The JSON text of a value, or the double that cannot be rendered.
#[verifier::rlimit(100)]
#[verifier::loop_isolation(false)]
pub fn json_chars(v: &Value) -> (r: Result<Vec<char>, TextError>)
    ensures
        match r {
            Ok(cs) => json_of(v@) == Ok::<Seq<char>, TextError>(cs@),
            Err(e) => json_of(v@) == Err::<Seq<char>, TextError>(e),
        },
    decreases v,
{
    let mut out: Vec<char> = Vec::new();
    match v {
        Value::Null => {
            proof {
                reveal_strlit("null");
            }
            out.push('n');
            out.push('u');
            out.push('l');
            out.push('l');
            proof {
                assert(out@ =~= "null"@);
            }
            Ok(out)
        },
        Value::Bool(bv) => {
            if *bv {
                proof {
                    reveal_strlit("true");
                }
                out.push('t');
                out.push('r');
                out.push('u');
                out.push('e');
                proof {
                    assert(out@ =~= "true"@);
                }
            } else {
                proof {
                    reveal_strlit("false");
                }
                out.push('f');
                out.push('a');
                out.push('l');
                out.push('s');
                out.push('e');
                proof {
                    assert(out@ =~= "false"@);
                }
            }
            Ok(out)
        },
        Value::Int(i) => {
            i64_string_push(*i, &mut out);
            proof {
                assert(out@ =~= dec_of_i64(*i));
            }
            Ok(out)
        },
        Value::Float(bits) => {
            if float_neg_zero(*bits) {
                proof {
                    reveal_strlit("-0.0");
                }
                out.push('-');
                out.push('0');
                out.push('.');
                out.push('0');
                proof {
                    assert(out@ =~= "-0.0"@);
                }
                return Ok(out);
            }
            match float_as_big_int(*bits) {
                Option::Some(n) => {
                    if -9007199254740992 <= n && n <= 9007199254740992 {
                        proof {
                            reveal_strlit(".0");
                        }
                        i64_string_push(n, &mut out);
                        out.push('.');
                        out.push('0');
                        proof {
                            assert(out@ =~= dec_of_i64(n) + ".0"@);
                        }
                        Ok(out)
                    } else {
                        Err(TextError::Float { bits: *bits })
                    }
                },
                Option::None => Err(TextError::Float { bits: *bits }),
            }
        },
        Value::Str(s) => {
            let cs = str_chars(s.as_str());
            json_quote_push(&cs, &mut out);
            Ok(out)
        },
        Value::Arr(es) => {
            out.push('[');
            let ghost ev = vals_of(es@);
            proof {
                lemma_vals_of_index(es@);
            }
            let mut i: usize = 0;
            while i < es.len()
                invariant
                    0 <= i <= es@.len(),
                    forall|k: int| 0 <= k < i ==> #[trigger] json_of(ev[k]) is Ok,
                    i > 0 ==> json_items(ev.take(i as int)) is Ok,
                    out@ =~= seq!['['] + (if i == 0 {
                        Seq::<char>::empty()
                    } else {
                        json_items(ev.take(i as int))->Ok_0 + (if i < ev.len() {
                            seq![',']
                        } else {
                            Seq::<char>::empty()
                        })
                    }),
                decreases es@.len() - i,
            {
                proof {
                    assert(decreases_to!(*v => es@[i as int])) by {
                        assert(*v == Value::Arr(*es));
                        assert(decreases_to!(*v => (*v)->Arr_0));
                        assert((*v)->Arr_0 == *es);
                        assert(decreases_to!(*es => es@));
                        assert(decreases_to!(es@ => es@[i as int]));
                    }
                }
                match json_chars(&es[i]) {
                    Ok(piece) => {
                        let mut k: usize = 0;
                        let ghost basek = out@;
                        while k < piece.len()
                            invariant
                                0 <= k <= piece@.len(),
                                out@ =~= basek + piece@.take(k as int),
                            decreases piece@.len() - k,
                        {
                            out.push(piece[k]);
                            proof {
                                assert(piece@.take(k + 1) =~= piece@.take(k as int).push(
                                    piece@[k as int],
                                ));
                            }
                            k = k + 1;
                        }
                        proof {
                            assert(piece@.take(piece@.len() as int) =~= piece@);
                        }
                        if i + 1 < es.len() {
                            out.push(',');
                        }
                        proof {
                            assert(ev.take(i as int).push(ev[i as int]) =~= ev.take(i + 1));
                            lemma_json_items_snoc(ev.take(i as int), ev[i as int]);
                        }
                    },
                    Err(e) => {
                        proof {
                            lemma_json_items_err(ev, i as int, e);
                        }
                        return Err(e);
                    },
                }
                i = i + 1;
            }
            out.push(']');
            proof {
                assert(ev.take(ev.len() as int) =~= ev);
                if ev.len() == 0 {
                    assert(json_items(ev) == Ok::<Seq<char>, TextError>(Seq::empty())) by {
                        assert(ev =~= Seq::<Val>::empty());
                    }
                    assert(out@ =~= seq!['['] + json_items(ev)->Ok_0 + seq![']']);
                } else {
                    assert(out@ =~= seq!['['] + json_items(ev)->Ok_0 + seq![']']);
                }
            }
            Ok(out)
        },
        Value::Obj(fs) => {
            out.push('{');
            let ghost fv = pairs_of(fs@);
            proof {
                lemma_pairs_of_index(fs@);
            }
            let mut i: usize = 0;
            while i < fs.len()
                invariant
                    0 <= i <= fs@.len(),
                    forall|k: int| 0 <= k < i ==> #[trigger] json_of(fv[k].1) is Ok,
                    i > 0 ==> json_fields(fv.take(i as int)) is Ok,
                    out@ =~= seq!['{'] + (if i == 0 {
                        Seq::<char>::empty()
                    } else {
                        json_fields(fv.take(i as int))->Ok_0 + (if i < fv.len() {
                            seq![',']
                        } else {
                            Seq::<char>::empty()
                        })
                    }),
                decreases fs@.len() - i,
            {
                proof {
                    assert(decreases_to!(*v => fs@[i as int].1)) by {
                        assert(*v == Value::Obj(*fs));
                        assert(decreases_to!(*v => (*v)->Obj_0));
                        assert((*v)->Obj_0 == *fs);
                        assert(decreases_to!(*fs => fs@));
                        assert(decreases_to!(fs@ => fs@[i as int]));
                        assert(decreases_to!(fs@[i as int] => fs@[i as int].1));
                    }
                }
                let kc = str_chars(fs[i].0.as_str());
                match json_chars(&fs[i].1) {
                    Ok(piece) => {
                        json_quote_push(&kc, &mut out);
                        out.push(':');
                        let mut k: usize = 0;
                        let ghost basek = out@;
                        while k < piece.len()
                            invariant
                                0 <= k <= piece@.len(),
                                out@ =~= basek + piece@.take(k as int),
                            decreases piece@.len() - k,
                        {
                            out.push(piece[k]);
                            proof {
                                assert(piece@.take(k + 1) =~= piece@.take(k as int).push(
                                    piece@[k as int],
                                ));
                            }
                            k = k + 1;
                        }
                        proof {
                            assert(piece@.take(piece@.len() as int) =~= piece@);
                        }
                        if i + 1 < fs.len() {
                            out.push(',');
                        }
                        proof {
                            assert(fv.take(i as int).push(fv[i as int]) =~= fv.take(i + 1));
                            assert(kc@ == fv[i as int].0);
                            lemma_json_fields_snoc(fv.take(i as int), fv[i as int]);
                        }
                    },
                    Err(e) => {
                        proof {
                            lemma_json_fields_err(fv, i as int, e);
                        }
                        return Err(e);
                    },
                }
                i = i + 1;
            }
            out.push('}');
            proof {
                assert(fv.take(fv.len() as int) =~= fv);
                if fv.len() == 0 {
                    assert(json_fields(fv) == Ok::<Seq<char>, TextError>(Seq::empty())) by {
                        assert(fv =~= Seq::<(Seq<char>, Val)>::empty());
                    }
                    assert(out@ =~= seq!['{'] + json_fields(fv)->Ok_0 + seq!['}']);
                } else {
                    assert(out@ =~= seq!['{'] + json_fields(fv)->Ok_0 + seq!['}']);
                }
            }
            Ok(out)
        },
    }
}

/// Appending one more Ok item to a comma-joined run.
pub proof fn lemma_json_items_snoc(p: Seq<Val>, x: Val)
    requires
        p.len() == 0 || json_items(p) is Ok,
        json_of(x) is Ok,
    ensures
        json_items(p.push(x)) == Ok::<Seq<char>, TextError>(
            if p.len() == 0 {
                json_of(x)->Ok_0
            } else {
                json_items(p)->Ok_0 + seq![','] + json_of(x)->Ok_0
            },
        ),
    decreases p.len(),
{
    let w = p.push(x);
    if p.len() == 0 {
        assert(w[0] == x);
        assert(json_items(w) == json_of(x));
    } else {
        assert(w[0] == p[0]);
        assert(w.drop_first() =~= p.drop_first().push(x));
        if p.len() == 1 {
            assert(p.drop_first() =~= Seq::<Val>::empty());
            assert(json_items(p) == json_of(p[0]));
            lemma_json_items_snoc(p.drop_first(), x);
            assert(json_items(w)->Ok_0 =~= json_items(p)->Ok_0 + seq![','] + json_of(x)->Ok_0);
        } else {
            lemma_json_items_snoc(p.drop_first(), x);
            assert(json_items(w)->Ok_0 =~= json_items(p)->Ok_0 + seq![','] + json_of(x)->Ok_0);
        }
    }
}

/// The first failing item fails the whole run with its error.
pub proof fn lemma_json_items_err(ev: Seq<Val>, i: int, e: TextError)
    requires
        0 <= i < ev.len(),
        json_of(ev[i]) == Err::<Seq<char>, TextError>(e),
        forall|k: int| 0 <= k < i ==> #[trigger] json_of(ev[k]) is Ok,
    ensures
        json_items(ev) == Err::<Seq<char>, TextError>(e),
    decreases i,
{
    if i == 0 {
        assert(json_items(ev) == Err::<Seq<char>, TextError>(e));
    } else {
        assert(json_of(ev[0]) is Ok);
        assert(ev.len() >= 2);
        assert(ev.drop_first()[i - 1] == ev[i]);
        assert forall|k: int| 0 <= k < i - 1 implies #[trigger] json_of(ev.drop_first()[k]) is Ok by {
            assert(ev.drop_first()[k] == ev[k + 1]);
        }
        lemma_json_items_err(ev.drop_first(), i - 1, e);
    }
}

/// Appending one more Ok field to a comma-joined run.
pub proof fn lemma_json_fields_snoc(p: Seq<(Seq<char>, Val)>, x: (Seq<char>, Val))
    requires
        p.len() == 0 || json_fields(p) is Ok,
        json_of(x.1) is Ok,
    ensures
        json_fields(p.push(x)) == Ok::<Seq<char>, TextError>(
            if p.len() == 0 {
                json_quote_of(x.0) + seq![':'] + json_of(x.1)->Ok_0
            } else {
                json_fields(p)->Ok_0 + seq![','] + (json_quote_of(x.0) + seq![':'] + json_of(
                    x.1,
                )->Ok_0)
            },
        ),
    decreases p.len(),
{
    let w = p.push(x);
    if p.len() == 0 {
        assert(w[0] == x);
    } else {
        assert(w[0] == p[0]);
        assert(w.drop_first() =~= p.drop_first().push(x));
        if p.len() == 1 {
            assert(p.drop_first() =~= Seq::<(Seq<char>, Val)>::empty());
            lemma_json_fields_snoc(p.drop_first(), x);
            assert(json_fields(w)->Ok_0 =~= json_fields(p)->Ok_0 + seq![','] + (json_quote_of(
                x.0,
            ) + seq![':'] + json_of(x.1)->Ok_0));
        } else {
            lemma_json_fields_snoc(p.drop_first(), x);
            assert(json_fields(w)->Ok_0 =~= json_fields(p)->Ok_0 + seq![','] + (json_quote_of(
                x.0,
            ) + seq![':'] + json_of(x.1)->Ok_0));
        }
    }
}

/// The first failing field fails the whole run with its error.
pub proof fn lemma_json_fields_err(fv: Seq<(Seq<char>, Val)>, i: int, e: TextError)
    requires
        0 <= i < fv.len(),
        json_of(fv[i].1) == Err::<Seq<char>, TextError>(e),
        forall|k: int| 0 <= k < i ==> #[trigger] json_of(fv[k].1) is Ok,
    ensures
        json_fields(fv) == Err::<Seq<char>, TextError>(e),
    decreases i,
{
    if i == 0 {
        assert(json_fields(fv) == Err::<Seq<char>, TextError>(e));
    } else {
        assert(json_of(fv[0].1) is Ok);
        assert(fv.len() >= 2);
        assert(fv.drop_first()[i - 1] == fv[i]);
        assert forall|k: int|
            0 <= k < i - 1 implies #[trigger] json_of(fv.drop_first()[k].1) is Ok by {
            assert(fv.drop_first()[k] == fv[k + 1]);
        }
        lemma_json_fields_err(fv.drop_first(), i - 1, e);
    }
}

/// The text of one scalar field value against the document dictionary:
/// null and booleans as literals, numbers in decimal (NaN and the
/// infinities as their quoted names), dictionary strings as `@index`,
/// other strings raw or quoted, nested arrays and objects as quoted JSON.
pub open spec fn fmt_value(v: Val, dict: Seq<Seq<char>>) -> Result<Seq<char>, TextError> {
    match v {
        Val::Null => Ok("_"@),
        Val::Bool(bv) => if bv {
            Ok("true"@)
        } else {
            Ok("false"@)
        },
        Val::Int(i) => Ok(dec_of_i64(i)),
        Val::Float(bits) => if f_nan(bits) {
            Ok("\"NaN\""@)
        } else if f_special(bits) && !f_neg(bits) {
            Ok("\"Infinity\""@)
        } else if f_special(bits) {
            Ok("\"-Infinity\""@)
        } else if f_neg_zero(bits) {
            Ok("-0"@)
        } else {
            match float_big_int(bits) {
                Option::Some(n) => if -9007199254740992 <= n <= 9007199254740992 {
                    Ok(dec_of_i64(n))
                } else {
                    Err(TextError::Float { bits })
                },
                Option::None => Err(TextError::Float { bits }),
            }
        },
        Val::Str(s) => if dict.contains(s) {
            Ok(seq!['@'] + dec_of_nat(crate::strtab::tbl_find(dict, s) as nat))
        } else if needs_quoting(s) {
            Ok(quote_of(s))
        } else {
            Ok(s)
        },
        Val::Arr(_) => match json_of(v) {
            Ok(j) => Ok(quote_of(j)),
            Err(e) => Err(e),
        },
        Val::Obj(_) => match json_of(v) {
            Ok(j) => Ok(quote_of(j)),
            Err(e) => Err(e),
        },
    }
}

/// Format one field value against the dictionary.
#[verifier::rlimit(100)]
#[verifier::loop_isolation(false)]
pub fn fmt_chars(v: &Value, dict: &Vec<String>) -> (r: Result<Vec<char>, TextError>)
    ensures
        match r {
            Ok(cs) => fmt_value(v@, crate::schema::str_views(dict@)) == Ok::<
                Seq<char>,
                TextError,
            >(cs@),
            Err(e) => fmt_value(v@, crate::schema::str_views(dict@)) == Err::<
                Seq<char>,
                TextError,
            >(e),
        },
{
    let ghost dv = crate::schema::str_views(dict@);
    let mut out: Vec<char> = Vec::new();
    match v {
        Value::Null => {
            proof {
                reveal_strlit("_");
            }
            out.push('_');
            proof {
                assert(out@ =~= "_"@);
            }
            Ok(out)
        },
        Value::Bool(bv) => {
            if *bv {
                proof {
                    reveal_strlit("true");
                }
                out.push('t');
                out.push('r');
                out.push('u');
                out.push('e');
                proof {
                    assert(out@ =~= "true"@);
                }
            } else {
                proof {
                    reveal_strlit("false");
                }
                out.push('f');
                out.push('a');
                out.push('l');
                out.push('s');
                out.push('e');
                proof {
                    assert(out@ =~= "false"@);
                }
            }
            Ok(out)
        },
        Value::Int(i) => {
            i64_string_push(*i, &mut out);
            proof {
                assert(out@ =~= dec_of_i64(*i));
            }
            Ok(out)
        },
        Value::Float(bits) => {
            if float_nan(*bits) {
                proof {
                    reveal_strlit("\"NaN\"");
                }
                out.push('"');
                out.push('N');
                out.push('a');
                out.push('N');
                out.push('"');
                proof {
                    assert(out@ =~= "\"NaN\""@);
                }
                return Ok(out);
            }
            if float_special(*bits) {
                if !float_negative(*bits) {
                    proof {
                        reveal_strlit("\"Infinity\"");
                    }
                    out.push('"');
                    out.push('I');
                    out.push('n');
                    out.push('f');
                    out.push('i');
                    out.push('n');
                    out.push('i');
                    out.push('t');
                    out.push('y');
                    out.push('"');
                    proof {
                        assert(out@ =~= "\"Infinity\""@);
                    }
                } else {
                    proof {
                        reveal_strlit("\"-Infinity\"");
                    }
                    out.push('"');
                    out.push('-');
                    out.push('I');
                    out.push('n');
                    out.push('f');
                    out.push('i');
                    out.push('n');
                    out.push('i');
                    out.push('t');
                    out.push('y');
                    out.push('"');
                    proof {
                        assert(out@ =~= "\"-Infinity\""@);
                    }
                }
                return Ok(out);
            }
            if float_neg_zero(*bits) {
                proof {
                    reveal_strlit("-0");
                }
                out.push('-');
                out.push('0');
                proof {
                    assert(out@ =~= "-0"@);
                }
                return Ok(out);
            }
            match float_as_big_int(*bits) {
                Option::Some(n) => {
                    if -9007199254740992 <= n && n <= 9007199254740992 {
                        i64_string_push(n, &mut out);
                        proof {
                            assert(out@ =~= dec_of_i64(n));
                        }
                        Ok(out)
                    } else {
                        Err(TextError::Float { bits: *bits })
                    }
                },
                Option::None => Err(TextError::Float { bits: *bits }),
            }
        },
        Value::Str(s) => {
            let sc = str_chars(s.as_str());
            // look the string up in the dictionary
            let mut idx: usize = 0;
            let mut found = false;
            #[verifier::loop_isolation(true)]
            loop
                invariant_except_break
                    0 <= idx <= dict@.len(),
                    !found,
                    sc@ == s@,
                    forall|k: int| 0 <= k < idx ==> crate::schema::str_views(dict@)[k] != s@,
                ensures
                    0 <= idx <= dict@.len(),
                    sc@ == s@,
                    forall|k: int| 0 <= k < idx ==> crate::schema::str_views(dict@)[k] != s@,
                    found ==> idx < dict@.len() && crate::schema::str_views(dict@)[idx as int]
                        == s@,
                    !found ==> forall|k: int|
                        0 <= k < dict@.len() ==> crate::schema::str_views(dict@)[k] != s@,
                decreases dict@.len() - idx,
            {
                if idx >= dict.len() {
                    break;
                }
                let dc = str_chars(dict[idx].as_str());
                if chars_eq_exec(&dc, &sc) {
                    found = true;
                    break;
                }
                idx = idx + 1;
            }
            proof {
                crate::strtab::lemma_tbl_find(dv, s@);
            }
            if found {
                proof {
                    assert(dv.contains(s@));
                    let f = crate::strtab::tbl_find(dv, s@);
                    assert(f == idx as int) by {
                        if f < idx as int {
                            assert(dv[f] != s@);
                            assert(false);
                        }
                        if f > idx as int {
                            assert(dv[idx as int] != s@);
                            assert(false);
                        }
                    }
                }
                out.push('@');
                nat_string_push(idx as u64, &mut out);
                proof {
                    assert(out@ =~= seq!['@'] + dec_of_nat(
                        crate::strtab::tbl_find(dv, s@) as nat,
                    ));
                }
                Ok(out)
            } else {
                proof {
                    assert(!dv.contains(s@)) by {
                        if dv.contains(s@) {
                            let k = choose|k: int| 0 <= k < dv.len() && dv[k] == s@;
                        }
                    }
                }
                if needs_quoting_exec(&sc) {
                    quote_push(&sc, &mut out);
                    Ok(out)
                } else {
                    let mut k: usize = 0;
                    while k < sc.len()
                        invariant
                            0 <= k <= sc@.len(),
                            out@ =~= sc@.take(k as int),
                        decreases sc@.len() - k,
                    {
                        out.push(sc[k]);
                        proof {
                            assert(sc@.take(k + 1) =~= sc@.take(k as int).push(sc@[k as int]));
                        }
                        k = k + 1;
                    }
                    proof {
                        assert(sc@.take(sc@.len() as int) =~= sc@);
                    }
                    Ok(out)
                }
            }
        },
        Value::Arr(_) => {
            match json_chars(v) {
                Ok(j) => {
                    quote_push(&j, &mut out);
                    Ok(out)
                },
                Err(e) => Err(e),
            }
        },
        Value::Obj(_) => {
            match json_chars(v) {
                Ok(j) => {
                    quote_push(&j, &mut out);
                    Ok(out)
                },
                Err(e) => Err(e),
            }
        },
    }
}

/// Append one character vector to another.
pub fn append_chars(out: &mut Vec<char>, piece: &Vec<char>)
    ensures
        final(out)@ == old(out)@ + piece@,
{
    let mut k: usize = 0;
    while k < piece.len()
        invariant
            0 <= k <= piece@.len(),
            out@ =~= old(out)@ + piece@.take(k as int),
        decreases piece@.len() - k,
    {
        out.push(piece[k]);
        proof {
            assert(piece@.take(k + 1) =~= piece@.take(k as int).push(piece@[k as int]));
        }
        k = k + 1;
    }
    proof {
        assert(piece@.take(piece@.len() as int) =~= piece@);
        assert(out@ =~= old(out)@ + piece@);
    }
}

/// The first value under `k`, as a map lookup.
pub open spec fn obj_get(fs: Seq<(Seq<char>, Val)>, k: Seq<char>) -> Option<Val>
    decreases fs.len(),
{
    if fs.len() == 0 {
        Option::None
    } else if fs[0].0 == k {
        Option::Some(fs[0].1)
    } else {
        obj_get(fs.drop_first(), k)
    }
}

/// Look a key up in an object's fields.
pub fn obj_get_exec<'a>(fs: &'a Vec<(String, Value)>, k: &Vec<char>) -> (r: Option<&'a Value>)
    ensures
        match r {
            Option::Some(v) => obj_get(pairs_of(fs@), k@) == Option::Some(v@),
            Option::None => obj_get(pairs_of(fs@), k@) is None,
        },
{
    let ghost fv = pairs_of(fs@);
    proof {
        lemma_pairs_of_index(fs@);
        assert(fv.skip(0) =~= fv);
    }
    let mut i: usize = 0;
    while i < fs.len()
        invariant
            0 <= i <= fs@.len(),
            fv == pairs_of(fs@),
            fv.len() == fs@.len(),
            forall|j: int| 0 <= j < fs@.len() ==> #[trigger] fv[j] == (fs@[j].0@, val_of(fs@[j].1)),
            obj_get(fv, k@) == obj_get(fv.skip(i as int), k@),
        decreases fs@.len() - i,
    {
        let kc = str_chars(fs[i].0.as_str());
        proof {
            let rest = fv.skip(i as int);
            assert(rest[0] == fv[i as int]);
            assert(rest.drop_first() =~= fv.skip(i as int + 1));
        }
        if chars_eq_exec(&kc, k) {
            return Option::Some(&fs[i].1);
        }
        i = i + 1;
    }
    proof {
        assert(fv.skip(fv.len() as int) =~= Seq::<(Seq<char>, Val)>::empty());
    }
    Option::None
}

/// Whether any record holds an array under `k`: the repeating-field flag.
pub open spec fn arr_flag(records: Seq<Val>, k: Seq<char>) -> bool
    decreases records.len(),
{
    if records.len() == 0 {
        false
    } else {
        (match records[0] {
            Val::Obj(fs) => obj_get(fs, k) matches Option::Some(Val::Arr(_)),
            _ => false,
        }) || arr_flag(records.drop_first(), k)
    }
}

pub fn arr_flag_exec(records: &Vec<Value>, k: &Vec<char>) -> (r: bool)
    ensures
        r == arr_flag(vals_of(records@), k@),
{
    let ghost rv = vals_of(records@);
    proof {
        lemma_vals_of_index(records@);
        assert(rv.skip(0) =~= rv);
    }
    let mut i: usize = 0;
    while i < records.len()
        invariant
            0 <= i <= records@.len(),
            rv == vals_of(records@),
            rv.len() == records@.len(),
            forall|j: int| 0 <= j < records@.len() ==> #[trigger] rv[j] == val_of(records@[j]),
            arr_flag(rv, k@) == arr_flag(rv.skip(i as int), k@),
        decreases records@.len() - i,
    {
        proof {
            let rest = rv.skip(i as int);
            assert(rest[0] == rv[i as int]);
            assert(rest.drop_first() =~= rv.skip(i as int + 1));
        }
        match &records[i] {
            Value::Obj(fs) => {
                match obj_get_exec(fs, k) {
                    Option::Some(v) => {
                        match v {
                            Value::Arr(_) => {
                                return true;
                            },
                            _ => {},
                        }
                    },
                    Option::None => {},
                }
            },
            _ => {},
        }
        i = i + 1;
    }
    proof {
        assert(rv.skip(rv.len() as int) =~= Seq::<Val>::empty());
    }
    false
}

/// Every scalar string value observed for any schema key in one record.
pub open spec fn collect_in_record(fs: Seq<(Seq<char>, Val)>, keys: Seq<Seq<char>>) -> Seq<
    Seq<char>>
    decreases keys.len(),
{
    if keys.len() == 0 {
        Seq::empty()
    } else {
        (match obj_get(fs, keys[0]) {
            Option::Some(Val::Str(s)) => seq![s],
            _ => Seq::empty(),
        }) + collect_in_record(fs, keys.drop_first())
    }
}

/// Every scalar string value observed across all records, in order.
pub open spec fn collect_strs(records: Seq<Val>, keys: Seq<Seq<char>>) -> Seq<Seq<char>>
    decreases records.len(),
{
    if records.len() == 0 {
        Seq::empty()
    } else {
        (match records[0] {
            Val::Obj(fs) => collect_in_record(fs, keys),
            _ => Seq::empty(),
        }) + collect_strs(records.drop_first(), keys)
    }
}

/// Occurrences of `x` in a run of strings.
pub open spec fn count_occ(all: Seq<Seq<char>>, x: Seq<char>) -> nat
    decreases all.len(),
{
    if all.len() == 0 {
        0
    } else {
        (if all[0] == x {
            1nat
        } else {
            0nat
        }) + count_occ(all.drop_first(), x)
    }
}

/// The strings occurring at least twice, kept at their first occurrence.
pub open spec fn pick_repeated(all: Seq<Seq<char>>, i: int, acc: Seq<Seq<char>>) -> Seq<Seq<char>>
    decreases all.len() - i,
{
    if i < 0 || i >= all.len() {
        acc
    } else {
        let x = all[i];
        pick_repeated(
            all,
            i + 1,
            if acc.contains(x) || count_occ(all, x) < 2 {
                acc
            } else {
                acc.push(x)
            },
        )
    }
}

/// Insert a string into a sorted run (stable).
pub open spec fn insert_str(x: Seq<char>, s: Seq<Seq<char>>) -> Seq<Seq<char>>
    decreases s.len(),
{
    if s.len() == 0 {
        seq![x]
    } else if chars_le(s[0], x) {
        seq![s[0]] + insert_str(x, s.drop_first())
    } else {
        seq![x] + s
    }
}

/// Insertion sort of strings.
pub open spec fn sort_strs(s: Seq<Seq<char>>) -> Seq<Seq<char>>
    decreases s.len(),
{
    if s.len() == 0 {
        s
    } else {
        insert_str(s.last(), sort_strs(s.drop_last()))
    }
}

/// The document dictionary: the strings repeated across the records,
/// sorted, indexed from zero.
pub open spec fn dict_list(all: Seq<Seq<char>>) -> Seq<Seq<char>> {
    sort_strs(pick_repeated(all, 0, Seq::empty()))
}

/// Where the scan stopped is where `insert_str` puts the string.
pub proof fn lemma_insert_str_at(x: Seq<char>, s: Seq<Seq<char>>, pos: int)
    requires
        0 <= pos <= s.len(),
        forall|k: int| 0 <= k < pos ==> chars_le(#[trigger] s[k], x),
        pos < s.len() ==> !chars_le(s[pos], x),
    ensures
        insert_str(x, s) =~= s.take(pos) + seq![x] + s.skip(pos),
    decreases pos,
{
    if pos == 0 {
        if s.len() > 0 {
            assert(insert_str(x, s) == seq![x] + s);
        }
        assert(insert_str(x, s) =~= s.take(0) + seq![x] + s.skip(0));
    } else {
        assert(chars_le(s[0], x));
        lemma_insert_str_at(x, s.drop_first(), pos - 1);
        assert(s.drop_first().take(pos - 1) =~= s.take(pos).drop_first());
        assert(s.drop_first().skip(pos - 1) =~= s.skip(pos));
        assert(insert_str(x, s) =~= s.take(pos) + seq![x] + s.skip(pos));
    }
}

/// Prefix a pending result with already-emitted text.
pub open spec fn chain(prefix: Seq<char>, r: Result<Seq<char>, TextError>) -> Result<
    Seq<char>,
    TextError,
> {
    match r {
        Ok(t) => Ok(prefix + t),
        Err(e) => Err(e),
    }
}

/// The schema line's field columns: ` key:type` with `[]` for repeating.
pub open spec fn schema_cols(fs0: Seq<(Seq<char>, Val)>, records: Seq<Val>) -> Seq<char>
    decreases fs0.len(),
{
    if fs0.len() == 0 {
        Seq::empty()
    } else {
        seq![' '] + fs0[0].0 + seq![':'] + type_label(fs0[0].1) + (if arr_flag(
            records,
            fs0[0].0,
        ) {
            "[]"@
        } else {
            Seq::empty()
        }) + schema_cols(fs0.drop_first(), records)
    }
}

/// The dictionary line's tokens, each quoted when it needs quoting.
pub open spec fn dict_tokens(dict: Seq<Seq<char>>) -> Seq<char>
    decreases dict.len(),
{
    if dict.len() == 0 {
        Seq::empty()
    } else {
        seq![' '] + (if needs_quoting(dict[0]) {
            quote_of(dict[0])
        } else {
            dict[0]
        }) + dict_tokens(dict.drop_first())
    }
}

/// The lines of one repeating field: one per element.
pub open spec fn arr_lines(key: Seq<char>, items: Seq<Val>, dict: Seq<Seq<char>>) -> Result<
    Seq<char>,
    TextError,
>
    decreases items.len(),
{
    if items.len() == 0 {
        Ok(Seq::empty())
    } else {
        match fmt_value(items[0], dict) {
            Ok(t) => chain(
                seq![' ', ' '] + key + seq![' '] + t + seq!['\n'],
                arr_lines(key, items.drop_first(), dict),
            ),
            Err(e) => Err(e),
        }
    }
}

/// The field lines of one record, in schema-key order: absent fields emit
/// nothing, repeating fields one line per element, scalar fields one line.
pub open spec fn record_fields(
    fs: Seq<(Seq<char>, Val)>,
    keys: Seq<Seq<char>>,
    records: Seq<Val>,
    dict: Seq<Seq<char>>,
) -> Result<Seq<char>, TextError>
    decreases keys.len(),
{
    if keys.len() == 0 {
        Ok(Seq::empty())
    } else {
        let rest = keys.drop_first();
        match obj_get(fs, keys[0]) {
            Option::None => record_fields(fs, rest, records, dict),
            Option::Some(v) => {
                if arr_flag(records, keys[0]) {
                    match v {
                        Val::Arr(items) => match arr_lines(keys[0], items, dict) {
                            Ok(t) => chain(t, record_fields(fs, rest, records, dict)),
                            Err(e) => Err(e),
                        },
                        _ => record_fields(fs, rest, records, dict),
                    }
                } else {
                    match fmt_value(v, dict) {
                        Ok(t) => chain(
                            seq![' ', ' '] + keys[0] + seq![' '] + t + seq!['\n'],
                            record_fields(fs, rest, records, dict),
                        ),
                        Err(e) => Err(e),
                    }
                }
            },
        }
    }
}

/// The record blocks: a `data` line then the record's field lines; a
/// non-object record emits nothing.
pub open spec fn records_lines(
    rs: Seq<Val>,
    keys: Seq<Seq<char>>,
    records: Seq<Val>,
    dict: Seq<Seq<char>>,
) -> Result<Seq<char>, TextError>
    decreases rs.len(),
{
    if rs.len() == 0 {
        Ok(Seq::empty())
    } else {
        match rs[0] {
            Val::Obj(fs) => match record_fields(fs, keys, records, dict) {
                Ok(t) => chain(
                    "data\n"@ + t,
                    records_lines(rs.drop_first(), keys, records, dict),
                ),
                Err(e) => Err(e),
            },
            _ => records_lines(rs.drop_first(), keys, records, dict),
        }
    }
}

/// The whole TENS-Text document for a value: canonicalize; an array's
/// elements are the records, a single object is one record, anything else
/// is a schema error; empty records give only the version line; the schema
/// comes from the first record, which must be an object.
pub open spec fn text_encode(v: Val, enc: Option<Seq<char>>) -> Result<Seq<char>, TextError> {
    let c = crate::canon::canon_val(v);
    let records = match c {
        Val::Arr(es) => es,
        Val::Obj(_) => seq![c],
        _ => Seq::empty(),
    };
    if !(c is Arr || c is Obj) {
        Err(TextError::Schema)
    } else if records.len() == 0 {
        Ok("@version 1\n"@)
    } else {
        match records[0] {
            Val::Obj(fs0) => {
                let keys = crate::canon::pair_keys(fs0);
                let dict = dict_list(collect_strs(records, keys));
                let header = "@version 1\n"@ + (match enc {
                    Option::Some(e) => "@encoding "@ + e + seq!['\n'],
                    Option::None => Seq::empty(),
                });
                let schema_line = "@schema data"@ + schema_cols(fs0, records) + seq!['\n'];
                let dict_line = if dict.len() == 0 {
                    Seq::empty()
                } else {
                    "@dict"@ + dict_tokens(dict) + seq!['\n']
                };
                chain(
                    header + schema_line + dict_line + seq!['\n'],
                    records_lines(records, keys, records, dict),
                )
            },
            _ => Err(TextError::Schema),
        }
    }
}

/// The views of a run of character vectors.
pub open spec fn char_views(s: Seq<Vec<char>>) -> Seq<Seq<char>> {
    Seq::new(s.len(), |i: int| s[i]@)
}

/// Append a string slice's characters.
pub fn append_str(out: &mut Vec<char>, s: &str)
    ensures
        final(out)@ == old(out)@ + s@,
{
    let cs = str_chars(s);
    append_chars(out, &cs);
}

/// The lines of one repeating field, appended to `out`.
#[verifier::rlimit(100)]
#[verifier::loop_isolation(false)]
fn arr_lines_exec(
    key: &Vec<char>,
    items: &Vec<Value>,
    dict: &Vec<String>,
    out: &mut Vec<char>,
) -> (r: Result<(), TextError>)
    ensures
        ({
            let spec_r = arr_lines(key@, vals_of(items@), crate::schema::str_views(dict@));
            match r {
                Ok(_) => spec_r is Ok && final(out)@ == old(out)@ + spec_r->Ok_0,
                Err(e) => spec_r == Err::<Seq<char>, TextError>(e),
            }
        }),
{
    let ghost iv = vals_of(items@);
    let ghost dv = crate::schema::str_views(dict@);
    let ghost items_full = arr_lines(key@, iv, dv);
    proof {
        lemma_vals_of_index(items@);
        assert(iv.skip(0) =~= iv);
    }
    let mut t: usize = 0;
    while t < items.len()
        invariant
            0 <= t <= items@.len(),
            chain(out@, arr_lines(key@, iv.skip(t as int), dv)) == chain(old(out)@, items_full),
        decreases items@.len() - t,
    {
        let ghost irest = iv.skip(t as int);
        let ghost out_prev = out@;
        proof {
            assert(irest[0] == iv[t as int]);
            assert(irest.drop_first() =~= iv.skip(t as int + 1));
        }
        match fmt_chars(&items[t], dict) {
            Ok(piece) => {
                out.push(' ');
                out.push(' ');
                append_chars(out, key);
                out.push(' ');
                append_chars(out, &piece);
                out.push('\n');
                proof {
                    let a2 = arr_lines(key@, iv.skip(t as int + 1), dv);
                    let p2 = seq![' ', ' '] + key@ + seq![' '] + piece@ + seq!['\n'];
                    assert(out@ =~= out_prev + p2);
                    assert(arr_lines(key@, irest, dv) == chain(p2, a2));
                    match a2 {
                        Ok(x) => {
                            assert(out_prev + (p2 + x) =~= (out_prev + p2) + x);
                            assert(chain(out@, a2) == chain(out_prev, arr_lines(key@, irest, dv)));
                        },
                        Err(_) => {},
                    }
                }
            },
            Err(e) => {
                return Err(e);
            },
        }
        t = t + 1;
    }
    proof {
        assert(iv.skip(iv.len() as int) =~= Seq::<Val>::empty());
    }
    Ok(())
}

/// The field lines of one record, appended to `out`.
#[verifier::rlimit(100)]
#[verifier::loop_isolation(false)]
fn record_block_exec(
    fs: &Vec<(String, Value)>,
    keys: &Vec<Vec<char>>,
    flags: &Vec<bool>,
    records: &Vec<Value>,
    dict: &Vec<String>,
    out: &mut Vec<char>,
) -> (r: Result<(), TextError>)
    requires
        keys@.len() == flags@.len(),
        forall|i: int|
            0 <= i < flags@.len() ==> #[trigger] flags@[i] == arr_flag(
                vals_of(records@),
                keys@[i]@,
            ),
    ensures
        ({
            let spec_r = record_fields(
                pairs_of(fs@),
                char_views(keys@),
                vals_of(records@),
                crate::schema::str_views(dict@),
            );
            match r {
                Ok(_) => spec_r is Ok && final(out)@ == old(out)@ + spec_r->Ok_0,
                Err(e) => spec_r == Err::<Seq<char>, TextError>(e),
            }
        }),
{
    let ghost fv = pairs_of(fs@);
    let ghost kv = char_views(keys@);
    let ghost rv = vals_of(records@);
    let ghost dv = crate::schema::str_views(dict@);
    let ghost full = record_fields(fv, kv, rv, dv);
    proof {
        assert(kv.skip(0) =~= kv);
    }
    let mut j: usize = 0;
    while j < keys.len()
        invariant
            0 <= j <= keys@.len(),
            chain(out@, record_fields(fv, kv.skip(j as int), rv, dv)) == chain(old(out)@, full),
        decreases keys@.len() - j,
    {
        let ghost rest = kv.skip(j as int);
        proof {
            assert(rest[0] == kv[j as int]);
            assert(rest.drop_first() =~= kv.skip(j as int + 1));
            assert(kv[j as int] == keys@[j as int]@);
        }
        let ghost out_prev = out@;
        let ghost spec_rest2 = record_fields(fv, kv.skip(j as int + 1), rv, dv);
        match obj_get_exec(fs, &keys[j]) {
            Option::Some(v) => {
                if flags[j] {
                    match v {
                        Value::Arr(items) => {
                            proof {
                                lemma_vals_of_index(items@);
                                assert((v@)->Arr_0 == vals_of(items@));
                            }
                            match arr_lines_exec(&keys[j], items, dict, out) {
                                Ok(_) => {
                                    proof {
                                        let ta = arr_lines(kv[j as int], vals_of(items@), dv);
                                        assert(record_fields(fv, rest, rv, dv) == chain(
                                            ta->Ok_0,
                                            spec_rest2,
                                        ));
                                        assert(out@ == out_prev + ta->Ok_0);
                                        match spec_rest2 {
                                            Ok(x) => {
                                                assert(out_prev + (ta->Ok_0 + x) =~= (out_prev
                                                    + ta->Ok_0) + x);
                                                assert(chain(out@, spec_rest2) == chain(
                                                    out_prev,
                                                    record_fields(fv, rest, rv, dv),
                                                ));
                                            },
                                            Err(_) => {},
                                        }
                                    }
                                },
                                Err(e) => {
                                    return Err(e);
                                },
                            }
                        },
                        _ => {},
                    }
                } else {
                    match fmt_chars(v, dict) {
                        Ok(piece) => {
                            out.push(' ');
                            out.push(' ');
                            append_chars(out, &keys[j]);
                            out.push(' ');
                            append_chars(out, &piece);
                            out.push('\n');
                            proof {
                                let p2 = seq![' ', ' '] + kv[j as int] + seq![' '] + piece@
                                    + seq!['\n'];
                                assert(out@ =~= out_prev + p2);
                                assert(record_fields(fv, rest, rv, dv) == chain(p2, spec_rest2));
                                match spec_rest2 {
                                    Ok(x) => {
                                        assert(out_prev + (p2 + x) =~= (out_prev + p2) + x);
                                        assert(chain(out@, spec_rest2) == chain(
                                            out_prev,
                                            record_fields(fv, rest, rv, dv),
                                        ));
                                    },
                                    Err(_) => {},
                                }
                            }
                        },
                        Err(e) => {
                            return Err(e);
                        },
                    }
                }
            },
            Option::None => {},
        }
        j = j + 1;
    }
    proof {
        assert(kv.skip(kv.len() as int) =~= Seq::<Seq<char>>::empty());
    }
    Ok(())
}

/// The field names of the first record, in canonical order.
#[verifier::loop_isolation(false)]
fn build_keys(fs0: &Vec<(String, Value)>) -> (keys: Vec<Vec<char>>)
    ensures
        char_views(keys@) == crate::canon::pair_keys(pairs_of(fs0@)),
        keys@.len() == fs0@.len(),
{
    let ghost kv = crate::canon::pair_keys(pairs_of(fs0@));
    proof {
        lemma_pairs_of_index(fs0@);
    }
    let mut keys: Vec<Vec<char>> = Vec::new();
    let mut i: usize = 0;
    while i < fs0.len()
        invariant
            0 <= i <= fs0@.len(),
            kv == crate::canon::pair_keys(pairs_of(fs0@)),
            kv.len() == fs0@.len(),
            forall|k: int| 0 <= k < fs0@.len() ==> #[trigger] kv[k] == fs0@[k].0@,
            char_views(keys@) =~= kv.take(i as int),
            keys@.len() == i,
        decreases fs0@.len() - i,
    {
        let kc = str_chars(fs0[i].0.as_str());
        keys.push(kc);
        proof {
            assert(char_views(keys@) =~= kv.take(i + 1));
        }
        i = i + 1;
    }
    proof {
        assert(kv.take(kv.len() as int) =~= kv);
    }
    keys
}

/// The repeating flag of each field.
#[verifier::loop_isolation(false)]
fn build_flags(records: &Vec<Value>, keys: &Vec<Vec<char>>) -> (flags: Vec<bool>)
    ensures
        flags@.len() == keys@.len(),
        forall|k: int|
            0 <= k < flags@.len() ==> #[trigger] flags@[k] == arr_flag(
                vals_of(records@),
                char_views(keys@)[k],
            ),
{
    let mut flags: Vec<bool> = Vec::new();
    let mut i: usize = 0;
    while i < keys.len()
        invariant
            0 <= i <= keys@.len(),
            flags@.len() == i,
            forall|k: int|
                0 <= k < i ==> #[trigger] flags@[k] == arr_flag(
                    vals_of(records@),
                    char_views(keys@)[k],
                ),
        decreases keys@.len() - i,
    {
        let f = arr_flag_exec(records, &keys[i]);
        flags.push(f);
        i = i + 1;
    }
    flags
}

/// Every scalar string observed across the records, record-major.
#[verifier::loop_isolation(false)]
fn collect_all(records: &Vec<Value>, keys: &Vec<Vec<char>>) -> (all: Vec<Vec<char>>)
    ensures
        char_views(all@) == collect_strs(vals_of(records@), char_views(keys@)),
{
    let ghost rv = vals_of(records@);
    let ghost kv = char_views(keys@);
    let ghost all_g = collect_strs(rv, kv);
    proof {
        lemma_vals_of_index(records@);
        assert(rv.skip(0) =~= rv);
    }
    let mut all: Vec<Vec<char>> = Vec::new();
    proof {
        assert(char_views(all@) =~= Seq::<Seq<char>>::empty());
        assert(char_views(all@) + collect_strs(rv.skip(0), kv) =~= all_g);
    }
    let mut ri: usize = 0;
    while ri < records.len()
        invariant
            0 <= ri <= records@.len(),
            rv == vals_of(records@),
            rv.len() == records@.len(),
            forall|k: int| 0 <= k < records@.len() ==> #[trigger] rv[k] == val_of(records@[k]),
            char_views(all@) + collect_strs(rv.skip(ri as int), kv) =~= all_g,
        decreases records@.len() - ri,
    {
        let ghost rrest = rv.skip(ri as int);
        proof {
            assert(rrest[0] == rv[ri as int]);
            assert(rrest.drop_first() =~= rv.skip(ri as int + 1));
        }
        match &records[ri] {
            Value::Obj(fsr) => {
                let ghost fvr = pairs_of(fsr@);
                proof {
                    lemma_pairs_of_index(fsr@);
                    assert(kv.skip(0) =~= kv);
                }
                let mut ki: usize = 0;
                while ki < keys.len()
                    invariant
                        0 <= ki <= keys@.len(),
                        kv == char_views(keys@),
                        keys@.len() == kv.len(),
                        fvr == pairs_of(fsr@),
                        char_views(all@) + collect_in_record(fvr, kv.skip(ki as int))
                            + collect_strs(rv.skip(ri as int + 1), kv) =~= all_g,
                    decreases keys@.len() - ki,
                {
                    let ghost krest = kv.skip(ki as int);
                    proof {
                        assert(krest[0] == kv[ki as int]);
                        assert(krest.drop_first() =~= kv.skip(ki as int + 1));
                    }
                    match obj_get_exec(fsr, &keys[ki]) {
                        Option::Some(v) => {
                            match v {
                                Value::Str(s) => {
                                    let sc = str_chars(s.as_str());
                                    all.push(sc);
                                    proof {
                                        assert(char_views(all@) =~= char_views(
                                            all@.drop_last(),
                                        ).push(s@));
                                    }
                                },
                                _ => {},
                            }
                        },
                        Option::None => {},
                    }
                    ki = ki + 1;
                }
                proof {
                    assert(kv.skip(kv.len() as int) =~= Seq::<Seq<char>>::empty());
                    assert(collect_in_record(fvr, Seq::<Seq<char>>::empty()) =~= Seq::<
                        Seq<char>,
                    >::empty());
                }
            },
            _ => {},
        }
        ri = ri + 1;
    }
    proof {
        assert(rv.skip(rv.len() as int) =~= Seq::<Val>::empty());
        assert(collect_strs(Seq::<Val>::empty(), kv) =~= Seq::<Seq<char>>::empty());
        assert(char_views(all@) =~= all_g);
    }
    all
}

/// The strings observed at least twice, first occurrences in order.
#[verifier::loop_isolation(false)]
fn pick_exec(all: &Vec<Vec<char>>) -> (picked: Vec<Vec<char>>)
    ensures
        char_views(picked@) == pick_repeated(
            char_views(all@),
            0,
            Seq::<Seq<char>>::empty(),
        ),
{
    let ghost all_g = char_views(all@);
    let ghost picked_g = pick_repeated(all_g, 0, Seq::empty());
    let mut picked: Vec<Vec<char>> = Vec::new();
    proof {
        assert(char_views(picked@) =~= Seq::<Seq<char>>::empty());
    }
    let mut pi: usize = 0;
    while pi < all.len()
        invariant
            0 <= pi <= all@.len(),
            all_g == char_views(all@),
            all@.len() == all_g.len(),
            pick_repeated(all_g, pi as int, char_views(picked@)) == picked_g,
        decreases all@.len() - pi,
    {
        let x = &all[pi];
        let ghost p_old = char_views(picked@);
        let mut seen = false;
        let mut si: usize = 0;
        #[verifier::loop_isolation(true)]
        loop
            invariant_except_break
                0 <= si <= picked@.len(),
                !seen,
                forall|k: int| 0 <= k < si ==> #[trigger] char_views(picked@)[k] != x@,
            ensures
                seen ==> char_views(picked@).contains(x@),
                !seen ==> forall|k: int|
                    0 <= k < picked@.len() ==> #[trigger] char_views(picked@)[k] != x@,
            decreases picked@.len() - si,
        {
            if si >= picked.len() {
                break;
            }
            if chars_eq_exec(&picked[si], x) {
                seen = true;
                proof {
                    assert(char_views(picked@)[si as int] == x@);
                }
                break;
            }
            si = si + 1;
        }
        proof {
            if !seen && char_views(picked@).contains(x@) {
                let w = choose|w: int|
                    0 <= w < char_views(picked@).len() && char_views(picked@)[w] == x@;
                assert(char_views(picked@)[w] != x@);
            }
            assert(seen == char_views(picked@).contains(x@));
        }
        if !seen {
            let mut cnt: u64 = 0;
            let mut ci: usize = 0;
            proof {
                assert(all_g.skip(0) =~= all_g);
            }
            #[verifier::loop_isolation(true)]
            loop
                invariant_except_break
                    0 <= ci <= all@.len(),
                    all_g == char_views(all@),
                    all@.len() == all_g.len(),
                    cnt <= ci,
                    cnt + count_occ(all_g.skip(ci as int), x@) == count_occ(all_g, x@),
                    x@ == all_g[pi as int],
                    pi < all@.len(),
                ensures
                    cnt == count_occ(all_g, x@),
                decreases all@.len() - ci,
            {
                if ci >= all.len() {
                    proof {
                        assert(all_g.skip(ci as int) =~= Seq::<Seq<char>>::empty());
                    }
                    break;
                }
                proof {
                    let arest = all_g.skip(ci as int);
                    assert(arest[0] == all_g[ci as int]);
                    assert(arest.drop_first() =~= all_g.skip(ci as int + 1));
                }
                if chars_eq_exec(&all[ci], x) {
                    cnt = cnt + 1;
                }
                ci = ci + 1;
            }
            if cnt >= 2 {
                let mut xc: Vec<char> = Vec::new();
                append_chars(&mut xc, x);
                picked.push(xc);
                proof {
                    assert(char_views(picked@) =~= p_old.push(x@));
                }
            }
        }
        proof {
            assert(pick_repeated(all_g, pi as int, p_old) == pick_repeated(
                all_g,
                pi + 1,
                char_views(picked@),
            ));
        }
        pi = pi + 1;
    }
    proof {
        assert(pick_repeated(all_g, all_g.len() as int, char_views(picked@)) == char_views(
            picked@,
        ));
    }
    picked
}

/// Sort the dictionary strings.
#[verifier::loop_isolation(false)]
fn sort_strs_exec(input: Vec<Vec<char>>) -> (sorted: Vec<Vec<char>>)
    ensures
        char_views(sorted@) == sort_strs(char_views(input@)),
{
    let ghost picked_g = char_views(input@);
    let mut picked = input;
    let mut dictv: Vec<Vec<char>> = Vec::new();
    let ghost mut done: int = 0;
    proof {
        assert(char_views(picked@) =~= picked_g.skip(0));
        assert(char_views(dictv@) =~= sort_strs(picked_g.take(0)) ) by {
            assert(picked_g.take(0) =~= Seq::<Seq<char>>::empty());
            assert(char_views(dictv@) =~= Seq::<Seq<char>>::empty());
        }
    }
    while picked.len() > 0
        invariant
            0 <= done,
            done + picked@.len() == picked_g.len(),
            char_views(picked@) =~= picked_g.skip(done),
            char_views(dictv@) =~= sort_strs(picked_g.take(done)),
        decreases picked@.len(),
    {
        let ghost old_picked = picked@;
        let e = picked.remove(0);
        let mut pos: usize = 0;
        #[verifier::loop_isolation(true)]
        loop
            invariant_except_break
                0 <= pos <= dictv@.len(),
                e@ == old_picked[0]@,
                forall|k: int| 0 <= k < pos ==> chars_le(#[trigger] char_views(dictv@)[k], e@),
            ensures
                0 <= pos <= dictv@.len(),
                forall|k: int| 0 <= k < pos ==> chars_le(#[trigger] char_views(dictv@)[k], e@),
                pos < dictv@.len() ==> !chars_le(char_views(dictv@)[pos as int], e@),
            decreases dictv@.len() - pos,
        {
            if pos >= dictv.len() {
                break;
            }
            if !chars_le_exec(&dictv[pos], &e) {
                break;
            }
            pos = pos + 1;
        }
        let ghost old_dictv = char_views(dictv@);
        dictv.insert(pos, e);
        proof {
            lemma_insert_str_at(old_picked[0]@, old_dictv, pos as int);
            assert(char_views(dictv@) =~= old_dictv.take(pos as int) + seq![old_picked[0]@]
                + old_dictv.skip(pos as int));
            assert(char_views(dictv@) =~= insert_str(old_picked[0]@, old_dictv));
            assert(picked_g.take(done + 1).drop_last() =~= picked_g.take(done));
            assert(picked_g.take(done + 1).last() == picked_g[done]);
            assert(char_views(old_picked)[0] == old_picked[0]@);
            assert(picked_g[done] == old_picked[0]@);
            assert(sort_strs(picked_g.take(done + 1)) == insert_str(
                picked_g[done],
                sort_strs(picked_g.take(done)),
            ));
            assert(char_views(picked@) =~= picked_g.skip(done + 1)) by {
                assert forall|k: int|
                    0 <= k < picked@.len() implies #[trigger] char_views(picked@)[k]
                    == picked_g.skip(done + 1)[k] by {
                    assert(char_views(picked@)[k] == picked@[k]@);
                    assert(picked@[k] == old_picked[k + 1]);
                    assert(char_views(old_picked)[k + 1] == picked_g.skip(done)[k + 1]);
                }
            }
            done = done + 1;
        }
    }
    proof {
        assert(picked_g.take(done) =~= picked_g);
    }
    dictv
}

/// Emit the schema line's field columns.
#[verifier::loop_isolation(false)]
fn emit_schema_cols(
    fs0: &Vec<(String, Value)>,
    keys: &Vec<Vec<char>>,
    flags: &Vec<bool>,
    records: &Vec<Value>,
    out: &mut Vec<char>,
)
    requires
        char_views(keys@) == crate::canon::pair_keys(pairs_of(fs0@)),
        keys@.len() == fs0@.len(),
        flags@.len() == keys@.len(),
        forall|k: int|
            0 <= k < flags@.len() ==> #[trigger] flags@[k] == arr_flag(
                vals_of(records@),
                char_views(keys@)[k],
            ),
    ensures
        final(out)@ == old(out)@ + schema_cols(pairs_of(fs0@), vals_of(records@)),
{
    let ghost fv0 = pairs_of(fs0@);
    let ghost kv = char_views(keys@);
    let ghost rv = vals_of(records@);
    proof {
        lemma_pairs_of_index(fs0@);
        assert(fv0.skip(0) =~= fv0);
    }
    let mut ci2: usize = 0;
    while ci2 < fs0.len()
        invariant
            0 <= ci2 <= fs0@.len(),
            kv.len() == fv0.len(),
            forall|k: int| 0 <= k < fv0.len() ==> #[trigger] kv[k] == fv0[k].0,
            forall|k: int| 0 <= k < fv0.len() ==> #[trigger] fv0[k] == (fs0@[k].0@, val_of(
                fs0@[k].1,
            )),
            out@ + schema_cols(fv0.skip(ci2 as int), rv) =~= old(out)@ + schema_cols(fv0, rv),
        decreases fs0@.len() - ci2,
    {
        let ghost frest = fv0.skip(ci2 as int);
        proof {
            assert(frest[0] == fv0[ci2 as int]);
            assert(frest.drop_first() =~= fv0.skip(ci2 as int + 1));
        }
        out.push(' ');
        append_chars(out, &keys[ci2]);
        out.push(':');
        let label = infer_type(&fs0[ci2].1);
        append_str(out, label);
        if flags[ci2] {
            append_str(out, "[]");
        }
        proof {
            assert(schema_cols(frest, rv) == seq![' '] + frest[0].0 + seq![':'] + type_label(
                frest[0].1,
            ) + (if arr_flag(rv, frest[0].0) {
                "[]"@
            } else {
                Seq::<char>::empty()
            }) + schema_cols(fv0.skip(ci2 + 1), rv));
            assert(out@ + schema_cols(fv0.skip(ci2 + 1), rv) =~= old(out)@ + schema_cols(fv0, rv));
        }
        ci2 = ci2 + 1;
    }
    proof {
        assert(fv0.skip(fv0.len() as int) =~= Seq::<(Seq<char>, Val)>::empty());
        assert(schema_cols(Seq::<(Seq<char>, Val)>::empty(), rv) =~= Seq::<char>::empty());
        assert(out@ =~= old(out)@ + schema_cols(fv0, rv));
    }
}

/// Emit the dictionary line's tokens.
#[verifier::loop_isolation(false)]
fn emit_dict_tokens(dictv: &Vec<Vec<char>>, out: &mut Vec<char>)
    ensures
        final(out)@ == old(out)@ + dict_tokens(char_views(dictv@)),
{
    let ghost dict_g = char_views(dictv@);
    proof {
        assert(dict_g.skip(0) =~= dict_g);
    }
    let mut ti: usize = 0;
    while ti < dictv.len()
        invariant
            0 <= ti <= dictv@.len(),
            dict_g == char_views(dictv@),
            dictv@.len() == dict_g.len(),
            out@ + dict_tokens(dict_g.skip(ti as int)) =~= old(out)@ + dict_tokens(dict_g),
        decreases dictv@.len() - ti,
    {
        let ghost trest = dict_g.skip(ti as int);
        proof {
            assert(trest[0] == dict_g[ti as int]);
            assert(trest.drop_first() =~= dict_g.skip(ti as int + 1));
        }
        out.push(' ');
        if needs_quoting_exec(&dictv[ti]) {
            quote_push(&dictv[ti], out);
        } else {
            append_chars(out, &dictv[ti]);
        }
        ti = ti + 1;
    }
    proof {
        assert(dict_g.skip(dict_g.len() as int) =~= Seq::<Seq<char>>::empty());
        assert(dict_tokens(Seq::<Seq<char>>::empty()) =~= Seq::<char>::empty());
        assert(out@ =~= old(out)@ + dict_tokens(dict_g));
    }
}

/// Emit the record blocks.
#[verifier::loop_isolation(false)]
fn emit_records(
    records: &Vec<Value>,
    keys: &Vec<Vec<char>>,
    flags: &Vec<bool>,
    dict: &Vec<String>,
    out: &mut Vec<char>,
) -> (r: Result<(), TextError>)
    requires
        flags@.len() == keys@.len(),
        forall|k: int|
            0 <= k < flags@.len() ==> #[trigger] flags@[k] == arr_flag(
                vals_of(records@),
                char_views(keys@)[k],
            ),
    ensures
        ({
            let spec_r = records_lines(
                vals_of(records@),
                char_views(keys@),
                vals_of(records@),
                crate::schema::str_views(dict@),
            );
            match r {
                Ok(_) => spec_r is Ok && final(out)@ == old(out)@ + spec_r->Ok_0,
                Err(e) => spec_r == Err::<Seq<char>, TextError>(e),
            }
        }),
{
    let ghost rv = vals_of(records@);
    let ghost kv = char_views(keys@);
    let ghost dict_g = crate::schema::str_views(dict@);
    let ghost full = records_lines(rv, kv, rv, dict_g);
    proof {
        lemma_vals_of_index(records@);
        assert(rv.skip(0) =~= rv);
    }
    let mut bi: usize = 0;
    while bi < records.len()
        invariant
            0 <= bi <= records@.len(),
            rv == vals_of(records@),
            rv.len() == records@.len(),
            forall|k: int| 0 <= k < records@.len() ==> #[trigger] rv[k] == val_of(records@[k]),
            chain(out@, records_lines(rv.skip(bi as int), kv, rv, dict_g)) == chain(
                old(out)@,
                full,
            ),
        decreases records@.len() - bi,
    {
        let ghost rrest = rv.skip(bi as int);
        let ghost out_prev = out@;
        let ghost spec_rest2 = records_lines(rv.skip(bi as int + 1), kv, rv, dict_g);
        proof {
            assert(rrest[0] == rv[bi as int]);
            assert(rrest.drop_first() =~= rv.skip(bi as int + 1));
        }
        match &records[bi] {
            Value::Obj(fsr) => {
                append_str(out, "data\n");
                match record_block_exec(fsr, keys, flags, records, dict, out) {
                    Ok(_) => {
                        proof {
                            let tb = record_fields(pairs_of(fsr@), kv, rv, dict_g);
                            assert(records_lines(rrest, kv, rv, dict_g) == chain(
                                "data\n"@ + tb->Ok_0,
                                spec_rest2,
                            ));
                            assert(out@ =~= out_prev + ("data\n"@ + tb->Ok_0));
                            match spec_rest2 {
                                Ok(x) => {
                                    assert(out_prev + (("data\n"@ + tb->Ok_0) + x) =~= (out_prev
                                        + ("data\n"@ + tb->Ok_0)) + x);
                                    assert(chain(out@, spec_rest2) == chain(
                                        out_prev,
                                        records_lines(rrest, kv, rv, dict_g),
                                    ));
                                },
                                Err(_) => {},
                            }
                        }
                    },
                    Err(e) => {
                        return Err(e);
                    },
                }
            },
            _ => {},
        }
        bi = bi + 1;
    }
    proof {
        assert(rv.skip(rv.len() as int) =~= Seq::<Val>::empty());
    }
    Ok(())
}

/// Encode a value as a TENS-Text document: its canonical array elements (or
/// the single object) become records under an inferred schema, with
/// repeated strings interned in a sorted dictionary.
#[verifier::rlimit(100)]
#[verifier::loop_isolation(false)]
pub fn encode_tens_text(data: &Value, encoding: Option<&str>) -> (r: Result<String, TextError>)
    ensures
        ({
            let enc = match encoding {
                Option::Some(e) => Option::Some(e@),
                Option::None => Option::None,
            };
            match r {
                Ok(s) => text_encode(data@, enc) == Ok::<Seq<char>, TextError>(s@),
                Err(e) => text_encode(data@, enc) == Err::<Seq<char>, TextError>(e),
            }
        }),
{
    let ghost c = crate::canon::canon_val(data@);
    let ghost enc_g: Option<Seq<char>> = match encoding {
        Option::Some(e) => Option::Some(e@),
        Option::None => Option::None,
    };
    let canonical = crate::canon::canonicalize(data);
    let records: Vec<Value> = match canonical {
        Value::Arr(es) => es,
        Value::Obj(fs) => {
            let mut one: Vec<Value> = Vec::new();
            one.push(Value::Obj(fs));
            one
        },
        _ => {
            return Err(TextError::Schema);
        },
    };
    let ghost rv = vals_of(records@);
    proof {
        lemma_vals_of_index(records@);
        match c {
            Val::Arr(es) => {
                assert(rv =~= es);
            },
            Val::Obj(fs) => {
                assert(rv =~= seq![c]);
            },
            _ => {},
        }
    }
    let mut out: Vec<char> = Vec::new();
    if records.len() == 0 {
        append_str(&mut out, "@version 1\n");
        proof {
            assert(out@ =~= "@version 1\n"@);
        }
        return Ok(chars_string(&out));
    }
    // the schema comes from the first record
    let fs0: &Vec<(String, Value)> = match &records[0] {
        Value::Obj(fs) => fs,
        _ => {
            return Err(TextError::Schema);
        },
    };
    let ghost fv0 = pairs_of(fs0@);
    proof {
        assert(rv[0] == Val::Obj(fv0));
    }
    let ghost kv = crate::canon::pair_keys(fv0);
    let keys = build_keys(fs0);
    let flags = build_flags(&records, &keys);
    let all = collect_all(&records, &keys);
    let picked = pick_exec(&all);
    let dictv = sort_strs_exec(picked);
    let ghost dict_g = char_views(dictv@);
    proof {
        assert(dict_g == dict_list(collect_strs(rv, kv)));
    }
    // the dictionary as strings, for the value formatter
    let mut dict: Vec<String> = Vec::new();
    let mut di: usize = 0;
    while di < dictv.len()
        invariant
            0 <= di <= dictv@.len(),
            char_views(dictv@) == dict_g,
            dictv@.len() == dict_g.len(),
            crate::schema::str_views(dict@) =~= dict_g.take(di as int),
            dict@.len() == di,
        decreases dictv@.len() - di,
    {
        let s = chars_string(&dictv[di]);
        dict.push(s);
        proof {
            assert(crate::schema::str_views(dict@) =~= dict_g.take(di + 1));
        }
        di = di + 1;
    }
    proof {
        assert(dict_g.take(dict_g.len() as int) =~= dict_g);
        assert(crate::schema::str_views(dict@) == dict_g);
    }
    // emit the directives
    append_str(&mut out, "@version 1\n");
    match encoding {
        Option::Some(e) => {
            append_str(&mut out, "@encoding ");
            append_str(&mut out, e);
            out.push('\n');
        },
        Option::None => {},
    }
    append_str(&mut out, "@schema data");
    let ghost header = "@version 1\n"@ + (match enc_g {
        Option::Some(e) => "@encoding "@ + e + seq!['\n'],
        Option::None => Seq::<char>::empty(),
    });
    proof {
        assert(out@ =~= header + "@schema data"@);
    }
    emit_schema_cols(fs0, &keys, &flags, &records, &mut out);
    out.push('\n');
    if dictv.len() > 0 {
        append_str(&mut out, "@dict");
        emit_dict_tokens(&dictv, &mut out);
        out.push('\n');
    }
    out.push('\n');
    let ghost preamble = out@;
    proof {
        let schema_line = "@schema data"@ + schema_cols(fv0, rv) + seq!['\n'];
        let dict_line = if dict_g.len() == 0 {
            Seq::<char>::empty()
        } else {
            "@dict"@ + dict_tokens(dict_g) + seq!['\n']
        };
        assert(preamble =~= header + schema_line + dict_line + seq!['\n']);
    }
    match emit_records(&records, &keys, &flags, &dict, &mut out) {
        Ok(_) => {
            proof {
                assert(out@ =~= preamble + records_lines(rv, kv, rv, dict_g)->Ok_0);
            }
            Ok(chars_string(&out))
        },
        Err(e) => Err(e),
    }
}

/// The first index at or after `i` that does not hold whitespace.
pub open spec fn ws_end(s: Seq<char>, i: int) -> int
    decreases s.len() - i,
{
    if 0 <= i < s.len() && is_ws(s[i]) {
        ws_end(s, i + 1)
    } else {
        i
    }
}

/// The first index at or after `i` that holds whitespace (or the end).
pub open spec fn nonws_end(s: Seq<char>, i: int) -> int
    decreases s.len() - i,
{
    if 0 <= i < s.len() && !is_ws(s[i]) {
        nonws_end(s, i + 1)
    } else {
        i
    }
}

/// Trim whitespace from both ends.
pub open spec fn trim_ws(s: Seq<char>) -> Seq<char> {
    crate::canon::trim_end_ws(s.skip(ws_end(s, 0)))
}

/// Whether `s` starts with `p`.
pub open spec fn starts_with(s: Seq<char>, p: Seq<char>) -> bool {
    s.len() >= p.len() && s.subrange(0, p.len() as int) == p
}

/// A line with a trailing carriage return loses it.
pub open spec fn strip_cr(l: Seq<char>) -> Seq<char> {
    if l.len() > 0 && l.last() == '\r' {
        l.drop_last()
    } else {
        l
    }
}

/// The document's lines, as std's `str::lines` yields them.
pub open spec fn doc_lines(s: Seq<char>) -> Seq<Seq<char>> {
    let ps = crate::canon::split_nl(s);
    let ps2 = if s.len() > 0 && s.last() == '\n' {
        ps.drop_last()
    } else {
        ps
    };
    Seq::new(ps2.len(), |i: int| strip_cr(ps2[i]))
}

/// The whitespace-separated tokens of a line.
pub open spec fn ws_tokens(s: Seq<char>, i: int) -> Seq<Seq<char>>
    decreases s.len() - i,
{
    if i < 0 || i >= s.len() {
        Seq::empty()
    } else if is_ws(s[i]) {
        ws_tokens(s, i + 1)
    } else {
        let e = nonws_end(s, i + 1);
        let e2 = if e > i {
            e
        } else {
            i + 1
        };
        let e3 = if e2 > s.len() {
            s.len() as int
        } else {
            e2
        };
        seq![s.subrange(i, e3)] + ws_tokens(s, e3)
    }
}

/// The position after the closing quote of a quoted dictionary token whose
/// body starts at `i`.
pub open spec fn quoted_end(s: Seq<char>, i: int) -> int
    decreases s.len() - i,
{
    if i < 0 || i >= s.len() {
        i
    } else if s[i] == '"' {
        i + 1
    } else if s[i] == '\\' {
        if i + 1 >= s.len() {
            s.len() as int
        } else {
            quoted_end(s, i + 2)
        }
    } else {
        quoted_end(s, i + 1)
    }
}

/// The unescaped body of a quoted dictionary token starting at `i`.
pub open spec fn quoted_content(s: Seq<char>, i: int) -> Seq<char>
    decreases s.len() - i,
{
    if i < 0 || i >= s.len() {
        Seq::empty()
    } else if s[i] == '"' {
        Seq::empty()
    } else if s[i] == '\\' {
        if i + 1 >= s.len() {
            Seq::empty()
        } else {
            let c = s[i + 1];
            seq![
                if c == 'n' {
                    '\n'
                } else if c == 'r' {
                    '\r'
                } else if c == 't' {
                    '\t'
                } else {
                    c
                },
            ] + quoted_content(s, i + 2)
        }
    } else {
        seq![s[i]] + quoted_content(s, i + 1)
    }
}

/// The dictionary line's entries, quoted segments honoured.
pub open spec fn dict_toks(s: Seq<char>, i: int) -> Seq<Seq<char>>
    decreases s.len() - i,
{
    if i < 0 || i >= s.len() {
        Seq::empty()
    } else if is_ws(s[i]) {
        dict_toks(s, i + 1)
    } else if s[i] == '"' {
        let e = quoted_end(s, i + 1);
        let e2 = if e > i {
            e
        } else {
            i + 1
        };
        let e3 = if e2 > s.len() {
            s.len() as int
        } else {
            e2
        };
        seq![quoted_content(s, i + 1)] + dict_toks(s, e3)
    } else {
        let e = nonws_end(s, i + 1);
        let e2 = if e > i {
            e
        } else {
            i + 1
        };
        let e3 = if e2 > s.len() {
            s.len() as int
        } else {
            e2
        };
        seq![s.subrange(i, e3)] + dict_toks(s, e3)
    }
}

/// The entries of an `@dict` line: the text after the directive, tokenized.
pub open spec fn dict_line_entries(tr: Seq<char>) -> Seq<Seq<char>> {
    dict_toks(trim_ws(tr.skip(5)), 0)
}

/// The unescape of a quoted field value's inner text.
pub open spec fn unesc(s: Seq<char>) -> Seq<char>
    decreases s.len(),
{
    if s.len() == 0 {
        Seq::empty()
    } else if s[0] == '\\' {
        if s.len() == 1 {
            Seq::empty()
        } else {
            let c = s[1];
            seq![
                if c == 'n' {
                    '\n'
                } else if c == 'r' {
                    '\r'
                } else if c == 't' {
                    '\t'
                } else {
                    c
                },
            ] + unesc(s.skip(2))
        }
    } else {
        seq![s[0]] + unesc(s.drop_first())
    }
}

/// One field value: null marker, boolean, dictionary reference, quoted
/// string, integer, else the literal text.  A numeric literal that is not
/// an integer stays a string: the double it would carry cannot stand in the
/// verified library.
pub open spec fn parse_text_value(raw: Seq<char>, dict: Seq<Seq<char>>) -> Val {
    if raw == "_"@ {
        Val::Null
    } else if raw == "true"@ {
        Val::Bool(true)
    } else if raw == "false"@ {
        Val::Bool(false)
    } else if raw.len() > 1 && raw[0] == '@' && all_digits(raw.drop_first()) && digits_val(
        raw.drop_first(),
    ) < dict.len() {
        Val::Str(dict[digits_val(raw.drop_first()) as int])
    } else if raw.len() >= 2 && raw[0] == '"' && raw.last() == '"' {
        Val::Str(unesc(raw.subrange(1, raw.len() - 1)))
    } else if parse_i64_spec(raw) is Some {
        Val::Int(parse_i64_spec(raw)->Some_0)
    } else {
        Val::Str(raw)
    }
}

/// Append a field value to a repeating field: push onto the array under the
/// key, start one if absent, leave a non-array value alone.
pub open spec fn obj_append(fs: Seq<(Seq<char>, Val)>, k: Seq<char>, v: Val) -> Seq<
    (Seq<char>, Val),
>
    decreases fs.len(),
{
    if fs.len() == 0 {
        seq![(k, Val::Arr(seq![v]))]
    } else if crate::strutil::chars_lt(fs[0].0, k) {
        seq![fs[0]] + obj_append(fs.drop_first(), k, v)
    } else if fs[0].0 == k {
        match fs[0].1 {
            Val::Arr(items) => seq![(k, Val::Arr(items.push(v)))] + fs.drop_first(),
            _ => fs,
        }
    } else {
        seq![(k, Val::Arr(seq![v]))] + fs
    }
}

/// The decoder's running state.
pub struct TextState {
    pub dict: Seq<Seq<char>>,
    pub name: Seq<char>,
    pub arr_fields: Seq<Seq<char>>,
    pub records: Seq<Val>,
    pub cur_active: bool,
    pub cur: Seq<(Seq<char>, Val)>,
}

/// The `[]`-suffixed field names of a schema line's tokens.
pub open spec fn schema_arr_names(parts: Seq<Seq<char>>, i: int, acc: Seq<Seq<char>>) -> Seq<
    Seq<char>>
    decreases parts.len() - i,
{
    if i < 0 || i >= parts.len() {
        acc
    } else {
        let p = parts[i];
        let colon = first_colon(p, 0);
        let acc2 = if colon < p.len() {
            let ty = p.skip(colon + 1);
            if ty.len() >= 2 && ty[ty.len() - 1] == ']' && ty[ty.len() - 2] == '[' {
                acc.push(p.subrange(0, colon))
            } else {
                acc
            }
        } else {
            acc
        };
        schema_arr_names(parts, i + 1, acc2)
    }
}

/// The first `:` at or after `i`.
pub open spec fn first_colon(s: Seq<char>, i: int) -> int
    decreases s.len() - i,
{
    if i < 0 || i >= s.len() {
        s.len() as int
    } else if s[i] == ':' {
        i
    } else {
        first_colon(s, i + 1)
    }
}

/// One line's effect on the decoder state.
pub open spec fn td_line(st: TextState, line: Seq<char>) -> TextState {
    let tr = trim_ws(line);
    if tr.len() == 0 || tr[0] == '#' {
        st
    } else if starts_with(tr, "@version"@) {
        st
    } else if starts_with(tr, "@encoding"@) {
        st
    } else if starts_with(tr, "@schema"@) {
        let parts = ws_tokens(tr, 0);
        if parts.len() >= 2 {
            TextState {
                name: parts[1],
                arr_fields: schema_arr_names(parts, 2, st.arr_fields),
                ..st
            }
        } else {
            st
        }
    } else if starts_with(tr, "@dict"@) {
        TextState { dict: dict_line_entries(tr), ..st }
    } else if tr == st.name {
        TextState {
            records: if st.cur_active {
                st.records.push(Val::Obj(st.cur))
            } else {
                st.records
            },
            cur_active: true,
            cur: Seq::empty(),
            ..st
        }
    } else if starts_with(line, "  "@) && st.cur_active {
        let wsp = nonws_end(tr, 0);
        if wsp < tr.len() {
            let fname = tr.subrange(0, wsp);
            let raw = trim_ws(tr.skip(wsp + 1));
            let v = parse_text_value(raw, st.dict);
            TextState {
                cur: if st.arr_fields.contains(fname) {
                    obj_append(st.cur, fname, v)
                } else {
                    crate::binary::obj_insert(st.cur, fname, v)
                },
                ..st
            }
        } else {
            st
        }
    } else {
        st
    }
}

/// The decoder state after a run of lines.
pub open spec fn td_run(st: TextState, lines: Seq<Seq<char>>) -> TextState
    decreases lines.len(),
{
    if lines.len() == 0 {
        st
    } else {
        td_run(td_line(st, lines[0]), lines.drop_first())
    }
}

pub open spec fn td_init() -> TextState {
    TextState {
        dict: Seq::empty(),
        name: Seq::empty(),
        arr_fields: Seq::empty(),
        records: Seq::empty(),
        cur_active: false,
        cur: Seq::empty(),
    }
}

/// The decode of a whole document: run the lines, flush the record in
/// progress, then a single record stands alone and several stand in an
/// array.
pub open spec fn text_decode(s: Seq<char>) -> Val {
    let st = td_run(td_init(), doc_lines(s));
    let records = if st.cur_active {
        st.records.push(Val::Obj(st.cur))
    } else {
        st.records
    };
    if records.len() == 1 {
        records[0]
    } else {
        Val::Arr(records)
    }
}

fn ws_end_exec(v: &Vec<char>, from: usize) -> (r: usize)
    requires
        from <= v@.len(),
    ensures
        r == ws_end(v@, from as int),
        from <= r <= v@.len(),
{
    let mut i: usize = from;
    while i < v.len() && is_ws_exec(v[i])
        invariant
            from <= i <= v@.len(),
            ws_end(v@, from as int) == ws_end(v@, i as int),
        decreases v@.len() - i,
    {
        i = i + 1;
    }
    i
}

fn nonws_end_exec(v: &Vec<char>, from: usize) -> (r: usize)
    requires
        from <= v@.len(),
    ensures
        r == nonws_end(v@, from as int),
        from <= r <= v@.len(),
{
    let mut i: usize = from;
    while i < v.len() && !is_ws_exec(v[i])
        invariant
            from <= i <= v@.len(),
            nonws_end(v@, from as int) == nonws_end(v@, i as int),
        decreases v@.len() - i,
    {
        i = i + 1;
    }
    i
}

/// Copy a subrange of a character vector.
fn copy_range(v: &Vec<char>, from: usize, to: usize) -> (r: Vec<char>)
    requires
        from <= to <= v@.len(),
    ensures
        r@ == v@.subrange(from as int, to as int),
{
    let mut out: Vec<char> = Vec::new();
    let mut i: usize = from;
    while i < to
        invariant
            from <= i <= to <= v@.len(),
            out@ =~= v@.subrange(from as int, i as int),
        decreases to - i,
    {
        out.push(v[i]);
        proof {
            assert(v@.subrange(from as int, i + 1) =~= v@.subrange(from as int, i as int).push(
                v@[i as int],
            ));
        }
        i = i + 1;
    }
    out
}

/// Trim whitespace from both ends.
#[verifier::loop_isolation(false)]
fn trim_exec(v: &Vec<char>) -> (r: Vec<char>)
    ensures
        r@ == trim_ws(v@),
{
    let start = ws_end_exec(v, 0);
    let mut e: usize = v.len();
    while e > start && is_ws_exec(v[e - 1])
        invariant
            start <= e <= v@.len(),
            forall|k: int| e <= k < v@.len() ==> is_ws(#[trigger] v@[k]),
        decreases e,
    {
        e = e - 1;
    }
    let r = copy_range(v, start, e);
    proof {
        let t1 = v@.skip(start as int);
        assert forall|k: int| e - start <= k < t1.len() implies is_ws(#[trigger] t1[k]) by {
            assert(t1[k] == v@[k + start]);
        }
        if e > start {
            assert(t1[e - start - 1] == v@[e - 1]);
            assert(!is_ws(t1[e - start - 1]));
        }
        crate::canon::lemma_trim_take(t1, e - start);
        assert(t1.take(e - start) =~= v@.subrange(start as int, e as int));
    }
    r
}

/// Whether `v` starts with the characters of `p`.
fn starts_with_exec(v: &Vec<char>, p: &Vec<char>) -> (r: bool)
    ensures
        r == starts_with(v@, p@),
{
    if v.len() < p.len() {
        return false;
    }
    let mut i: usize = 0;
    while i < p.len()
        invariant
            0 <= i <= p@.len() <= v@.len(),
            forall|k: int| 0 <= k < i ==> v@[k] == p@[k],
        decreases p@.len() - i,
    {
        if v[i] != p[i] {
            proof {
                assert(v@.subrange(0, p@.len() as int)[i as int] == v@[i as int]);
            }
            return false;
        }
        i = i + 1;
    }
    proof {
        assert(v@.subrange(0, p@.len() as int) =~= p@);
    }
    true
}

/// Split a document into its lines.
#[verifier::loop_isolation(false)]
fn split_lines_exec(v: &Vec<char>) -> (r: Vec<Vec<char>>)
    ensures
        char_views(r@) == doc_lines(v@),
{
    let mut pieces: Vec<Vec<char>> = Vec::new();
    let mut cur: Vec<char> = Vec::new();
    let mut i: usize = 0;
    proof {
        assert(v@.take(0) =~= Seq::<char>::empty());
    }
    while i < v.len()
        invariant
            0 <= i <= v@.len(),
            crate::canon::split_nl(v@.take(i as int)) =~~= char_views(pieces@).push(cur@),
        decreases v@.len() - i,
    {
        let c = v[i];
        proof {
            assert(v@.take(i as int).push(c) =~= v@.take(i + 1));
            crate::canon::lemma_split_nl_snoc(v@.take(i as int), c);
            crate::canon::lemma_split_nl_len(v@.take(i as int));
        }
        let ghost before = char_views(pieces@).push(cur@);
        if c == '\n' {
            let done = cur;
            cur = Vec::new();
            pieces.push(done);
            proof {
                assert(char_views(pieces@).push(cur@) =~~= before.push(Seq::<char>::empty()));
            }
        } else {
            cur.push(c);
            proof {
                assert(char_views(pieces@).push(cur@) =~~= before.drop_last().push(
                    before.last().push(c),
                ));
            }
        }
        i = i + 1;
    }
    proof {
        assert(v@.take(v@.len() as int) =~= v@);
    }
    pieces.push(cur);
    proof {
        assert(crate::canon::split_nl(v@) =~~= char_views(pieces@));
    }
    if v.len() > 0 && v[v.len() - 1] == '\n' {
        pieces.pop();
        proof {
            assert(crate::canon::split_nl(v@).drop_last() =~= char_views(pieces@));
        }
    }
    // strip one trailing carriage return from each line
    let ghost ps2 = if v@.len() > 0 && v@.last() == '\n' {
        crate::canon::split_nl(v@).drop_last()
    } else {
        crate::canon::split_nl(v@)
    };
    proof {
        assert(char_views(pieces@) =~= ps2);
    }
    let mut out: Vec<Vec<char>> = Vec::new();
    let mut j: usize = 0;
    while j < pieces.len()
        invariant
            0 <= j <= pieces@.len(),
            char_views(pieces@) == ps2,
            pieces@.len() == ps2.len(),
            out@.len() == j,
            forall|k: int| 0 <= k < j ==> #[trigger] char_views(out@)[k] == strip_cr(ps2[k]),
        decreases pieces@.len() - j,
    {
        let p = &pieces[j];
        proof {
            assert(char_views(pieces@)[j as int] == p@);
        }
        let t: Vec<char> = if p.len() > 0 && p[p.len() - 1] == '\r' {
            let t0 = copy_range(p, 0, p.len() - 1);
            proof {
                assert(p@.subrange(0, p@.len() - 1) =~= p@.drop_last());
            }
            t0
        } else {
            let t0 = copy_range(p, 0, p.len());
            proof {
                assert(p@.subrange(0, p@.len() as int) =~= p@);
            }
            t0
        };
        proof {
            assert(t@ == strip_cr(ps2[j as int]));
        }
        let ghost out_prev = out@;
        out.push(t);
        proof {
            assert forall|k: int| 0 <= k < j + 1 implies #[trigger] char_views(out@)[k]
                == strip_cr(ps2[k]) by {
                assert(char_views(out@)[k] == out@[k]@);
                if k < j {
                    assert(out@[k] == out_prev[k]);
                    assert(char_views(out_prev)[k] == out_prev[k]@);
                }
            }
        }
        j = j + 1;
    }
    proof {
        assert(char_views(out@) =~= doc_lines(v@));
    }
    out
}

/// The whitespace-separated tokens of a line.
#[verifier::loop_isolation(false)]
fn ws_tokens_exec(v: &Vec<char>) -> (r: Vec<Vec<char>>)
    ensures
        char_views(r@) == ws_tokens(v@, 0),
{
    let mut out: Vec<Vec<char>> = Vec::new();
    let mut i: usize = 0;
    while i < v.len()
        invariant
            0 <= i <= v@.len(),
            char_views(out@) + ws_tokens(v@, i as int) =~~= ws_tokens(v@, 0),
        decreases v@.len() - i,
    {
        let c = v[i];
        if is_ws_exec(c) {
            i = i + 1;
        } else {
            let e = nonws_end_exec(v, i + 1);
            let tok = copy_range(v, i, e);
            out.push(tok);
            proof {
                assert(char_views(out@) =~= char_views(out@.drop_last()).push(
                    v@.subrange(i as int, e as int),
                ));
            }
            i = e;
        }
    }
    proof {
        assert(char_views(out@) + ws_tokens(v@, v@.len() as int) =~~= ws_tokens(v@, 0));
        assert(char_views(out@) =~= char_views(out@) + Seq::<Seq<char>>::empty());
    }
    out
}

/// The entries of an `@dict` line.
#[verifier::loop_isolation(false)]
fn dict_toks_exec(v: &Vec<char>) -> (r: Vec<Vec<char>>)
    ensures
        char_views(r@) == dict_toks(v@, 0),
{
    let mut out: Vec<Vec<char>> = Vec::new();
    let mut i: usize = 0;
    while i < v.len()
        invariant
            0 <= i <= v@.len(),
            char_views(out@) + dict_toks(v@, i as int) =~~= dict_toks(v@, 0),
        decreases v@.len() - i,
    {
        let c = v[i];
        if is_ws_exec(c) {
            i = i + 1;
        } else if c == '"' {
            // a quoted token: unescape up to the closing quote
            let mut tok: Vec<char> = Vec::new();
            let mut j: usize = i + 1;
            while j < v.len() && v[j] != '"'
                invariant
                    i + 1 <= j <= v@.len(),
                    quoted_content(v@, i + 1) =~= tok@ + quoted_content(v@, j as int),
                    quoted_end(v@, i + 1) == quoted_end(v@, j as int),
                decreases v@.len() - j,
            {
                let cc = v[j];
                if cc == '\\' {
                    if j + 1 >= v.len() {
                        j = v.len();
                    } else {
                        let nc = v[j + 1];
                        if nc == 'n' {
                            tok.push('\n');
                        } else if nc == 'r' {
                            tok.push('\r');
                        } else if nc == 't' {
                            tok.push('\t');
                        } else {
                            tok.push(nc);
                        }
                        j = j + 2;
                    }
                } else {
                    tok.push(cc);
                    j = j + 1;
                }
            }
            proof {
                if j < v@.len() {
                    assert(quoted_content(v@, j as int) =~= Seq::<char>::empty());
                    assert(quoted_end(v@, j as int) == j + 1);
                } else {
                    assert(quoted_content(v@, j as int) =~= Seq::<char>::empty());
                    assert(quoted_end(v@, j as int) == j);
                }
                assert(quoted_content(v@, i + 1) =~= tok@);
            }
            let next: usize = if j < v.len() {
                j + 1
            } else {
                j
            };
            out.push(tok);
            proof {
                assert(char_views(out@) =~= char_views(out@.drop_last()).push(
                    quoted_content(v@, i + 1),
                ));
                assert(dict_toks(v@, i as int) == seq![quoted_content(v@, i + 1)] + dict_toks(
                    v@,
                    next as int,
                ));
            }
            i = next;
        } else {
            let e = nonws_end_exec(v, i + 1);
            let tok = copy_range(v, i, e);
            out.push(tok);
            proof {
                assert(char_views(out@) =~= char_views(out@.drop_last()).push(
                    v@.subrange(i as int, e as int),
                ));
            }
            i = e;
        }
    }
    proof {
        assert(char_views(out@) + dict_toks(v@, v@.len() as int) =~~= dict_toks(v@, 0));
        assert(char_views(out@) =~= char_views(out@) + Seq::<Seq<char>>::empty());
    }
    out
}

/// Parse one field value token.
#[verifier::rlimit(100)]
#[verifier::loop_isolation(false)]
fn parse_text_value_exec(raw: &Vec<char>, dict: &Vec<String>) -> (r: Value)
    ensures
        r@ == parse_text_value(raw@, crate::schema::str_views(dict@)),
{
    proof {
        reveal_strlit("_");
        reveal_strlit("true");
        reveal_strlit("false");
    }
    let ghost dv = crate::schema::str_views(dict@);
    let underscore: Vec<char> = vec!['_'];
    let true_chars: Vec<char> = vec!['t', 'r', 'u', 'e'];
    let false_chars: Vec<char> = vec!['f', 'a', 'l', 's', 'e'];
    proof {
        assert(underscore@ =~= "_"@);
        assert(true_chars@ =~= "true"@);
        assert(false_chars@ =~= "false"@);
    }
    if chars_eq_exec(raw, &underscore) {
        return Value::Null;
    }
    if chars_eq_exec(raw, &true_chars) {
        return Value::Bool(true);
    }
    if chars_eq_exec(raw, &false_chars) {
        return Value::Bool(false);
    }
    if raw.len() > 1 && raw[0] == '@' {
        let rest_digits = all_digits_exec(raw, 1);
        proof {
            assert(raw@.skip(1) =~= raw@.drop_first());
        }
        if rest_digits {
            // accumulate with saturation: an overflowing index is out of range
            let dlen = dict.len();
            proof {
                assert(dv.len() == dict@.len());
            }
            let mut idx: u64 = 0;
            let mut over = false;
            let mut i: usize = 1;
            while i < raw.len()
                invariant
                    1 <= i <= raw@.len(),
                    all_digits(raw@.drop_first()),
                    !over ==> idx == digits_val(raw@.drop_first().take(i - 1)),
                    over ==> digits_val(raw@.drop_first().take(i - 1)) > 0xffffffffffffffff,
                    over ==> digits_val(raw@.drop_first()) > 0xffffffffffffffff,
                decreases raw@.len() - i,
            {
                let c = raw[i];
                proof {
                    assert(raw@.drop_first()[i - 1] == raw@[i as int]);
                    assert(is_digit(raw@[i as int]));
                }
                let d: u64 = (c as u32 as u64) - 48;
                proof {
                    assert(raw@.drop_first().take(i as int) =~= raw@.drop_first().take(
                        i - 1,
                    ).push(raw@[i as int]));
                    assert(raw@.drop_first().take(i as int).drop_last() =~= raw@.drop_first().take(
                        i - 1,
                    ));
                }
                if over || idx > (0xffffffffffffffffu64 - d) / 10 {
                    proof {
                        if !over {
                            assert(digits_val(raw@.drop_first().take(i as int)) == idx * 10 + d);
                            assert(idx * 10 + d > 0xffffffffffffffff) by (nonlinear_arith)
                                requires
                                    idx > (0xffffffffffffffffu64 - d) / 10,
                                    d < 10,
                            ;
                        } else {
                            let q = digits_val(raw@.drop_first().take(i - 1));
                            assert(digits_val(raw@.drop_first().take(i as int)) == q * 10 + d);
                            assert(q * 10 + d >= q) by (nonlinear_arith);
                        }
                        lemma_digits_val_mono(raw@.drop_first(), i as int);
                    }
                    over = true;
                } else {
                    proof {
                        assert(idx * 10 + d <= 0xffffffffffffffff) by (nonlinear_arith)
                            requires
                                idx <= (0xffffffffffffffffu64 - d) / 10,
                                d < 10,
                        ;
                    }
                    idx = idx * 10 + d;
                }
                i = i + 1;
            }
            proof {
                assert(raw@.drop_first().take(raw@.len() - 1) =~= raw@.drop_first());
            }
            if !over && idx < (usize::MAX as u64) && (idx as usize) < dlen {
                let s = dict[idx as usize].clone();
                proof {
                    assert(dv[idx as int] == dict@[idx as int]@);
                    assert(s@ == dv[idx as int]);
                }
                return Value::Str(s);
            }
            proof {
                if over {
                    assert(digits_val(raw@.drop_first()) >= dv.len());
                }
            }
            let copy = copy_range(raw, 0, raw.len());
            proof {
                assert(copy@ =~= raw@);
            }
            return Value::Str(chars_string(&copy));
        }
    }
    if raw.len() >= 2 && raw[0] == '"' && raw[raw.len() - 1] == '"' {
        // unescape the inner text
        let mut outc: Vec<char> = Vec::new();
        let ghost inner = raw@.subrange(1, raw@.len() - 1);
        let mut i: usize = 1;
        let end = raw.len() - 1;
        proof {
            assert(inner.skip(0) =~= inner);
        }
        while i < end
            invariant
                1 <= i <= end == raw@.len() - 1,
                raw@.len() >= 2,
                inner == raw@.subrange(1, raw@.len() - 1),
                unesc(inner) =~= outc@ + unesc(inner.skip(i - 1)),
            decreases end - i,
        {
            let ghost irest = inner.skip(i - 1);
            proof {
                assert(irest[0] == inner[i - 1]);
                assert(inner[i - 1] == raw@[i as int]);
                assert(irest.drop_first() =~= inner.skip(i as int));
            }
            let c = raw[i];
            if c == '\\' {
                if i + 1 >= end {
                    proof {
                        assert(irest.len() == 1);
                    }
                    i = end;
                } else {
                    proof {
                        assert(irest[1] == inner[i as int]);
                        assert(inner[i as int] == raw@[i + 1]);
                        assert(irest.skip(2) =~= inner.skip(i + 1));
                    }
                    let nc = raw[i + 1];
                    if nc == 'n' {
                        outc.push('\n');
                    } else if nc == 'r' {
                        outc.push('\r');
                    } else if nc == 't' {
                        outc.push('\t');
                    } else {
                        outc.push(nc);
                    }
                    i = i + 2;
                }
            } else {
                outc.push(c);
                i = i + 1;
            }
        }
        proof {
            assert(inner.skip(i - 1) =~= Seq::<char>::empty());
            assert(unesc(inner) =~= outc@);
        }
        return Value::Str(chars_string(&outc));
    }
    match parse_i64_exec(raw) {
        Option::Some(n) => Value::Int(n),
        Option::None => {
            let copy = copy_range(raw, 0, raw.len());
            proof {
                assert(copy@ =~= raw@);
            }
            Value::Str(chars_string(&copy))
        },
    }
}

/// Append a value under a repeating field, per [`obj_append`].
#[verifier::loop_isolation(false)]
fn obj_append_exec(fields: &mut Vec<(String, Value)>, key: String, v: Value)
    ensures
        pairs_of(final(fields)@) == obj_append(pairs_of(old(fields)@), key@, val_of(v)),
{
    let ghost fp = pairs_of(old(fields)@);
    proof {
        lemma_pairs_of_index(old(fields)@);
    }
    let kc = crate::strutil::str_chars(key.as_str());
    let mut posn: usize = 0;
    #[verifier::loop_isolation(true)]
    loop
        invariant_except_break
            0 <= posn <= fields@.len(),
            kc@ == key@,
            *fields == *old(fields),
            forall|j: int|
                0 <= j < posn ==> crate::strutil::chars_lt((#[trigger] fields@[j]).0@, key@),
        ensures
            0 <= posn <= fields@.len(),
            *fields == *old(fields),
            forall|j: int|
                0 <= j < posn ==> crate::strutil::chars_lt((#[trigger] fields@[j]).0@, key@),
            posn < fields@.len() ==> !crate::strutil::chars_lt(fields@[posn as int].0@, key@),
        decreases fields@.len() - posn,
    {
        if posn >= fields.len() {
            break;
        }
        let fkc = crate::strutil::str_chars(fields[posn].0.as_str());
        if !crate::strutil::chars_lt_exec(&fkc, &kc) {
            break;
        }
        posn = posn + 1;
    }
    proof {
        assert forall|j: int| 0 <= j < posn implies crate::strutil::chars_lt(
            (#[trigger] fp[j]).0,
            key@,
        ) by {
            assert(fp[j].0 == old(fields)@[j].0@);
        }
        if (posn as int) < fp.len() {
            assert(fp[posn as int].0 == old(fields)@[posn as int].0@);
        }
        lemma_obj_append_at(fp, key@, val_of(v), posn as int);
    }
    let mut key_eq = false;
    if posn < fields.len() {
        let fkc = crate::strutil::str_chars(fields[posn].0.as_str());
        if chars_eq_exec(&fkc, &kc) {
            key_eq = true;
        }
    }
    if key_eq {
        let ghost pre = fields@;
        let entry = fields.remove(posn);
        match entry {
            (_, Value::Arr(mut items)) => {
                let ghost items_pre = items@;
                items.push(v);
                proof {
                    lemma_vals_of_index(items@);
                    lemma_vals_of_index(items_pre);
                    assert(vals_of(items@) =~= vals_of(items_pre).push(val_of(v))) by {
                        assert forall|x: int|
                            0 <= x < items@.len() implies #[trigger] vals_of(items@)[x] == vals_of(
                            items_pre,
                        ).push(val_of(v))[x] by {
                            if x < items_pre.len() {
                                assert(items@[x] == items_pre[x]);
                            }
                        }
                    }
                }
                fields.insert(posn, (key, Value::Arr(items)));
                proof {
                    let ghost xe = fields@[posn as int];
                    assert(fields@ =~= pre.update(posn as int, xe)) by {
                        let mid = pre.remove(posn as int);
                        pre.remove_ensures(posn as int);
                        mid.insert_ensures(posn as int, xe);
                        assert(fields@ == mid.insert(posn as int, xe));
                        assert forall|x: int|
                            0 <= x < fields@.len() implies fields@[x] == pre.update(
                            posn as int,
                            xe,
                        )[x] by {
                            if x < posn as int {
                                assert(mid.insert(posn as int, xe)[x] == mid[x]);
                                assert(mid[x] == pre[x]);
                            } else if x > posn as int {
                                assert(mid.insert(posn as int, xe)[x] == mid[x - 1]);
                                assert(mid[x - 1] == pre[x]);
                            }
                        }
                    }
                    lemma_pairs_of_index(fields@);
                    lemma_pairs_of_index(pre);
                    assert(fp[posn as int].0 == key@);
                    assert(fp[posn as int].1 == Val::Arr(vals_of(items_pre)));
                    assert(pairs_of(fields@) =~= fp.update(
                        posn as int,
                        (key@, Val::Arr(vals_of(items_pre).push(val_of(v)))),
                    ));
                    assert(pairs_of(fields@) =~= obj_append(fp, key@, val_of(v)));
                }
            },
            (ekey, other) => {
                fields.insert(posn, (ekey, other));
                proof {
                    assert(fields@ =~= pre) by {
                        let mid = pre.remove(posn as int);
                        pre.remove_ensures(posn as int);
                        mid.insert_ensures(posn as int, fields@[posn as int]);
                        assert forall|x: int| 0 <= x < fields@.len() implies fields@[x]
                            == pre[x] by {
                            if x < posn as int {
                                assert(mid.insert(posn as int, pre[posn as int])[x] == mid[x]);
                                assert(mid[x] == pre[x]);
                            } else if x > posn as int {
                                assert(mid.insert(posn as int, pre[posn as int])[x] == mid[x
                                    - 1]);
                                assert(mid[x - 1] == pre[x]);
                            }
                        }
                    }
                    lemma_pairs_of_index(pre);
                    assert(fp[posn as int].0 == key@);
                    assert(pairs_of(fields@) =~= obj_append(fp, key@, val_of(v)));
                }
            },
        }
    } else {
        let ghost pre = fields@;
        let mut one: Vec<Value> = Vec::new();
        one.push(v);
        proof {
            lemma_vals_of_index(one@);
            assert(vals_of(one@) =~= seq![val_of(v)]);
        }
        fields.insert(posn, (key, Value::Arr(one)));
        proof {
            lemma_pairs_of_index(fields@);
            lemma_pairs_of_index(pre);
            pre.insert_ensures(posn as int, (key, Value::Arr(one)));
            if (posn as int) < fp.len() {
                assert(fp[posn as int].0 != key@) by {
                    assert(fp[posn as int].0 == old(fields)@[posn as int].0@);
                }
            }
            assert(pairs_of(fields@) =~= fp.take(posn as int) + seq![
                (key@, Val::Arr(seq![val_of(v)])),
            ] + fp.skip(posn as int));
            assert(pairs_of(fields@) =~= obj_append(fp, key@, val_of(v)));
        }
    }
}

/// Where the scan stopped is where `obj_append` works.
pub proof fn lemma_obj_append_at(fs: Seq<(Seq<char>, Val)>, k: Seq<char>, v: Val, pos: int)
    requires
        0 <= pos <= fs.len(),
        forall|j: int| 0 <= j < pos ==> crate::strutil::chars_lt((#[trigger] fs[j]).0, k),
        pos < fs.len() ==> !crate::strutil::chars_lt(fs[pos].0, k),
    ensures
        pos < fs.len() && fs[pos].0 == k ==> (match fs[pos].1 {
            Val::Arr(items) => obj_append(fs, k, v) =~= fs.update(
                pos,
                (k, Val::Arr(items.push(v))),
            ),
            _ => obj_append(fs, k, v) =~= fs,
        }),
        !(pos < fs.len() && fs[pos].0 == k) ==> obj_append(fs, k, v) =~= fs.take(pos) + seq![
            (k, Val::Arr(seq![v])),
        ] + fs.skip(pos),
    decreases pos,
{
    if pos == 0 {
        if fs.len() > 0 {
            if fs[0].0 == k {
                match fs[0].1 {
                    Val::Arr(items) => {
                        assert(obj_append(fs, k, v) =~= fs.update(
                            0,
                            (k, Val::Arr(items.push(v))),
                        ));
                    },
                    _ => {},
                }
            } else {
                assert(obj_append(fs, k, v) =~= fs.take(0) + seq![(k, Val::Arr(seq![v]))]
                    + fs.skip(0));
            }
        } else {
            assert(obj_append(fs, k, v) =~= fs.take(0) + seq![(k, Val::Arr(seq![v]))] + fs.skip(
                0,
            ));
        }
    } else {
        assert(crate::strutil::chars_lt(fs[0].0, k));
        lemma_obj_append_at(fs.drop_first(), k, v, pos - 1);
        assert(fs.drop_first().take(pos - 1) =~= fs.take(pos).drop_first());
        assert(fs.drop_first().skip(pos - 1) =~= fs.skip(pos));
        if pos < fs.len() && fs[pos].0 == k {
            assert(fs.drop_first()[pos - 1] == fs[pos]);
            match fs[pos].1 {
                Val::Arr(items) => {
                    assert(fs.drop_first().update(pos - 1, (k, Val::Arr(items.push(v))))
                        =~= fs.update(pos, (k, Val::Arr(items.push(v)))).drop_first());
                    assert(obj_append(fs, k, v) =~= fs.update(
                        pos,
                        (k, Val::Arr(items.push(v))),
                    ));
                },
                _ => {
                    assert(obj_append(fs, k, v) =~= fs);
                },
            }
        } else {
            assert(obj_append(fs, k, v) =~= fs.take(pos) + seq![(k, Val::Arr(seq![v]))] + fs.skip(
                pos,
            ));
        }
    }
}

/// Fold a schema line's `[]`-suffixed field names into the repeating set.
#[verifier::loop_isolation(false)]
fn schema_arr_names_exec(parts: &Vec<Vec<char>>, arr_fields: &mut Vec<Vec<char>>)
    ensures
        char_views(final(arr_fields)@) == schema_arr_names(
            char_views(parts@),
            2,
            char_views(old(arr_fields)@),
        ),
{
    let ghost pv = char_views(parts@);
    let mut i: usize = 2;
    proof {
        if pv.len() < 2 {
            assert(schema_arr_names(pv, 2, char_views(arr_fields@)) == char_views(arr_fields@));
        }
    }
    while i < parts.len()
        invariant
            2 <= i,
            i <= parts@.len() || (i == 2 && parts@.len() < 2),
            pv == char_views(parts@),
            pv.len() == parts@.len(),
            schema_arr_names(pv, i as int, char_views(arr_fields@)) == schema_arr_names(
                pv,
                2,
                char_views(old(arr_fields)@),
            ),
        decreases parts@.len() - i,
    {
        let p = &parts[i];
        proof {
            assert(pv[i as int] == p@);
        }
        // find the colon
        let mut cp: usize = 0;
        #[verifier::loop_isolation(true)]
        loop
            invariant_except_break
                0 <= cp <= p@.len(),
                forall|k: int| 0 <= k < cp ==> p@[k] != ':',
                first_colon(p@, 0) == first_colon(p@, cp as int),
            ensures
                0 <= cp <= p@.len(),
                first_colon(p@, 0) == cp || (cp == p@.len() && first_colon(p@, 0)
                    == p@.len() as int),
                cp < p@.len() ==> p@[cp as int] == ':',
            decreases p@.len() - cp,
        {
            if cp >= p.len() {
                break;
            }
            if p[cp] == ':' {
                break;
            }
            cp = cp + 1;
        }
        let ghost acc0 = char_views(arr_fields@);
        if cp < p.len() {
            // a `name:type` token: repeating when the type ends in `[]`
            let tylen = p.len() - cp - 1;
            if tylen >= 2 && p[p.len() - 1] == ']' && p[p.len() - 2] == '[' {
                let name = copy_range(p, 0, cp);
                arr_fields.push(name);
                proof {
                    let ty = p@.skip(cp + 1);
                    assert(ty.len() == tylen);
                    assert(ty[ty.len() - 1] == p@[p@.len() - 1]);
                    assert(ty[ty.len() - 2] == p@[p@.len() - 2]);
                    assert(char_views(arr_fields@) =~= acc0.push(p@.subrange(0, cp as int)));
                }
            } else {
                proof {
                    let ty = p@.skip(cp + 1);
                    if ty.len() >= 2 {
                        assert(ty[ty.len() - 1] == p@[p@.len() - 1]);
                        assert(ty[ty.len() - 2] == p@[p@.len() - 2]);
                    }
                }
            }
        }
        proof {
            assert(schema_arr_names(pv, i as int, acc0) == schema_arr_names(
                pv,
                i + 1,
                char_views(arr_fields@),
            ));
        }
        i = i + 1;
    }
    proof {
        if parts@.len() >= 2 {
            assert(schema_arr_names(pv, pv.len() as int, char_views(arr_fields@)) == char_views(
                arr_fields@,
            ));
        }
    }
}

/// Decode a TENS-Text document back into a value: one record stands alone,
/// several stand in an array.  Decoding never fails.
#[verifier::rlimit(100)]
#[verifier::loop_isolation(false)]
pub fn decode_tens_text(input: &str) -> (r: Result<Value, TextError>)
    ensures
        r is Ok && r->Ok_0@ == text_decode(input@),
{
    proof {
        reveal_strlit("@version");
        reveal_strlit("@encoding");
        reveal_strlit("@schema");
        reveal_strlit("@dict");
        reveal_strlit("  ");
    }
    let iv = str_chars(input);
    let lines = split_lines_exec(&iv);
    let ghost lv = char_views(lines@);
    let at_version: Vec<char> = vec!['@', 'v', 'e', 'r', 's', 'i', 'o', 'n'];
    let at_encoding: Vec<char> = vec!['@', 'e', 'n', 'c', 'o', 'd', 'i', 'n', 'g'];
    let at_schema: Vec<char> = vec!['@', 's', 'c', 'h', 'e', 'm', 'a'];
    let at_dict: Vec<char> = vec!['@', 'd', 'i', 'c', 't'];
    let two_spaces: Vec<char> = vec![' ', ' '];
    proof {
        assert(at_version@ =~= "@version"@);
        assert(at_encoding@ =~= "@encoding"@);
        assert(at_schema@ =~= "@schema"@);
        assert(at_dict@ =~= "@dict"@);
        assert(two_spaces@ =~= "  "@);
    }
    let mut dict: Vec<String> = Vec::new();
    let mut name: Vec<char> = Vec::new();
    let mut arr_fields: Vec<Vec<char>> = Vec::new();
    let mut records: Vec<Value> = Vec::new();
    let mut cur: Vec<(String, Value)> = Vec::new();
    let mut cur_active = false;
    let ghost mut st = td_init();
    proof {
        assert(crate::schema::str_views(dict@) =~= st.dict);
        assert(char_views(arr_fields@) =~= st.arr_fields);
        assert(vals_of(records@) =~= st.records);
        assert(pairs_of(cur@) =~= st.cur);
        assert(lv.skip(0) =~= lv);
    }
    let mut li: usize = 0;
    while li < lines.len()
        invariant
            0 <= li <= lines@.len(),
            lv == char_views(lines@),
            lv.len() == lines@.len(),
            at_version@ == "@version"@,
            at_encoding@ == "@encoding"@,
            at_schema@ == "@schema"@,
            at_dict@ == "@dict"@,
            two_spaces@ == "  "@,
            st == td_run(td_init(), lv.take(li as int)),
            crate::schema::str_views(dict@) == st.dict,
            name@ == st.name,
            char_views(arr_fields@) == st.arr_fields,
            vals_of(records@) == st.records,
            cur_active == st.cur_active,
            pairs_of(cur@) == st.cur,
        decreases lines@.len() - li,
    {
        let line = &lines[li];
        proof {
            assert(lv[li as int] == line@);
            assert(lv.take(li + 1) =~= lv.take(li as int).push(lv[li as int]));
            assert(lv.take(li + 1).drop_last() =~= lv.take(li as int));
            lemma_td_run_snoc(td_init(), lv.take(li as int), lv[li as int]);
        }
        let tr = trim_exec(line);
        if tr.len() == 0 || tr[0] == '#' {
        } else if starts_with_exec(&tr, &at_version) {
        } else if starts_with_exec(&tr, &at_encoding) {
        } else if starts_with_exec(&tr, &at_schema) {
            let parts = ws_tokens_exec(&tr);
            if parts.len() >= 2 {
                let mut nn: Vec<char> = Vec::new();
                append_chars(&mut nn, &parts[1]);
                proof {
                    assert(char_views(parts@)[1] == parts@[1]@);
                    assert(nn@ =~= Seq::<char>::empty() + parts@[1]@);
                }
                name = nn;
                schema_arr_names_exec(&parts, &mut arr_fields);
            }
        } else if starts_with_exec(&tr, &at_dict) {
            let after = copy_range(&tr, 5, tr.len());
            proof {
                assert(after@ =~= tr@.skip(5));
            }
            let trimmed = trim_exec(&after);
            let toks = dict_toks_exec(&trimmed);
            let mut nd: Vec<String> = Vec::new();
            let mut di: usize = 0;
            while di < toks.len()
                invariant
                    0 <= di <= toks@.len(),
                    crate::schema::str_views(nd@) =~= char_views(toks@).take(di as int),
                    nd@.len() == di,
                decreases toks@.len() - di,
            {
                let s = chars_string(&toks[di]);
                nd.push(s);
                proof {
                    assert(char_views(toks@)[di as int] == toks@[di as int]@);
                    assert(crate::schema::str_views(nd@) =~= char_views(toks@).take(di + 1));
                }
                di = di + 1;
            }
            proof {
                assert(char_views(toks@).take(char_views(toks@).len() as int) =~= char_views(
                    toks@,
                ));
            }
            dict = nd;
        } else if chars_eq_exec(&tr, &name) {
            if cur_active {
                let ghost pre = records@;
                records.push(Value::Obj(cur));
                proof {
                    lemma_vals_of_index(records@);
                    lemma_vals_of_index(pre);
                    assert(vals_of(records@) =~= vals_of(pre).push(val_of(records@.last()))) by {
                        assert forall|x: int|
                            0 <= x < records@.len() implies #[trigger] vals_of(records@)[x]
                            == vals_of(pre).push(val_of(records@.last()))[x] by {
                            if x < pre.len() {
                                assert(records@[x] == pre[x]);
                            }
                        }
                    }
                }
                cur = Vec::new();
            } else {
                cur = Vec::new();
            }
            cur_active = true;
            proof {
                assert(pairs_of(cur@) =~= Seq::<(Seq<char>, Val)>::empty());
            }
        } else if starts_with_exec(line, &two_spaces) && cur_active {
            let wsp = nonws_end_exec(&tr, 0);
            if wsp < tr.len() {
                let fname = copy_range(&tr, 0, wsp);
                let rawpart = copy_range(&tr, wsp + 1, tr.len());
                proof {
                    assert(rawpart@ =~= tr@.skip(wsp + 1));
                }
                let raw = trim_exec(&rawpart);
                let v = parse_text_value_exec(&raw, &dict);
                // is the field repeating?
                let mut isarr = false;
                let mut ai: usize = 0;
                #[verifier::loop_isolation(true)]
                loop
                    invariant_except_break
                        0 <= ai <= arr_fields@.len(),
                        !isarr,
                        forall|k: int|
                            0 <= k < ai ==> #[trigger] char_views(arr_fields@)[k] != fname@,
                    ensures
                        isarr ==> char_views(arr_fields@).contains(fname@),
                        !isarr ==> !char_views(arr_fields@).contains(fname@),
                    decreases arr_fields@.len() - ai,
                {
                    if ai >= arr_fields.len() {
                        proof {
                            if char_views(arr_fields@).contains(fname@) {
                                let w = choose|w: int|
                                    0 <= w < char_views(arr_fields@).len() && char_views(
                                        arr_fields@,
                                    )[w] == fname@;
                                assert(char_views(arr_fields@)[w] != fname@);
                            }
                        }
                        break;
                    }
                    if chars_eq_exec(&arr_fields[ai], &fname) {
                        isarr = true;
                        proof {
                            assert(char_views(arr_fields@)[ai as int] == fname@);
                        }
                        break;
                    }
                    ai = ai + 1;
                }
                let key = chars_string(&fname);
                if isarr {
                    obj_append_exec(&mut cur, key, v);
                } else {
                    crate::binary::obj_insert_exec(&mut cur, key, v);
                }
            }
        }
        proof {
            st = td_line(st, lv[li as int]);
        }
        li = li + 1;
    }
    proof {
        assert(lv.take(lv.len() as int) =~= lv);
    }
    let final_records = if cur_active {
        let ghost pre = records@;
        records.push(Value::Obj(cur));
        proof {
            lemma_vals_of_index(records@);
            lemma_vals_of_index(pre);
            assert(vals_of(records@) =~= vals_of(pre).push(val_of(records@.last()))) by {
                assert forall|x: int|
                    0 <= x < records@.len() implies #[trigger] vals_of(records@)[x] == vals_of(
                    pre,
                ).push(val_of(records@.last()))[x] by {
                    if x < pre.len() {
                        assert(records@[x] == pre[x]);
                    }
                }
            }
        }
        records
    } else {
        records
    };
    let ghost frv = if st.cur_active {
        st.records.push(Val::Obj(st.cur))
    } else {
        st.records
    };
    proof {
        assert(iv@ == input@);
        assert(lv == doc_lines(input@));
        assert(vals_of(final_records@) == frv);
        lemma_vals_of_index(final_records@);
        assert(text_decode(input@) == (if frv.len() == 1 {
            frv[0]
        } else {
            Val::Arr(frv)
        }));
    }
    if final_records.len() == 1 {
        let mut fr = final_records;
        match fr.pop() {
            Option::Some(v) => {
                proof {
                    assert(val_of(v) == frv[0]);
                }
                Ok(v)
            },
            Option::None => {
                proof {
                    assert(false);
                }
                Ok(Value::Null)
            },
        }
    } else {
        Ok(Value::Arr(final_records))
    }
}

/// Running one more line.
pub proof fn lemma_td_run_snoc(st0: TextState, lines: Seq<Seq<char>>, l: Seq<char>)
    ensures
        td_run(st0, lines.push(l)) == td_line(td_run(st0, lines), l),
    decreases lines.len(),
{
    if lines.len() == 0 {
        assert(lines.push(l)[0] == l);
        assert(lines.push(l).drop_first() =~= Seq::<Seq<char>>::empty());
        assert(td_run(st0, lines.push(l)) == td_run(td_line(st0, l), Seq::empty()));
        assert(td_run(st0, lines) == st0);
    } else {
        assert(lines.push(l)[0] == lines[0]);
        assert(lines.push(l).drop_first() =~= lines.drop_first().push(l));
        lemma_td_run_snoc(td_line(st0, lines[0]), lines.drop_first(), l);
    }
}

/// Relies on std's `char::from_u32`: a valid scalar value converts to the
/// character with that code point.
#[verifier::external_body]
fn char_from_u32(u: u32) -> (c: char)
    requires
        vstd::utf8::is_scalar(u),
    ensures
        c as u32 == u,
{
    match char::from_u32(u) {
        Some(c) => c,
        None => ' ',
    }
}

} // verus!
