//! Argument values and string-to-value coercion.
//!
//! Extracted path, query and body text is coerced per the argument's
//! declared type: the four-byte and eight-byte integer types parse as a
//! signed decimal (at most eighteen digits, so the value always fits),
//! the boolean type accepts `true`/`t`/`false`/`f`, and every other type
//! identifier passes the text through unchanged.
use crate::strutil::str_eq;
use vstd::prelude::*;

verus! {

/// A coerced argument value, ready for invocation.
#[derive(Debug)]
pub enum PgValue {
    Int(i64),
    Bool(bool),
    Text(String),
}

/// The mathematical value of a `PgValue`.
pub ghost enum SpecValue {
    Int(int),
    Bool(bool),
    Text(Seq<char>),
}

impl View for PgValue {
    type V = SpecValue;

    open spec fn view(&self) -> SpecValue {
        match self {
            PgValue::Int(v) => SpecValue::Int(*v as int),
            PgValue::Bool(b) => SpecValue::Bool(*b),
            PgValue::Text(s) => SpecValue::Text(s@),
        }
    }
}

impl PgValue {
    /// A copy of the value.
    pub fn duplicate(&self) -> (r: PgValue)
        ensures
            r@ == self@,
    {
        match self {
            PgValue::Int(v) => PgValue::Int(*v),
            PgValue::Bool(b) => PgValue::Bool(*b),
            PgValue::Text(s) => PgValue::Text(s.clone()),
        }
    }
}

/// A decimal digit.
pub open spec fn is_digit(c: char) -> bool {
    48 <= c as u32 && c as u32 <= 57
}

/// The numeric value of a digit.
pub open spec fn digit_val(c: char) -> int {
    c as u32 - 48
}

/// Every character is a decimal digit.
pub open spec fn all_digits(s: Seq<char>) -> bool {
    forall|i: int| 0 <= i < s.len() ==> is_digit(#[trigger] s[i])
}

/// The value of a digit string, most significant first.
pub open spec fn digits_val(s: Seq<char>) -> int
    decreases s.len(),
{
    if s.len() == 0 {
        0
    } else {
        digits_val(s.drop_last()) * 10 + digit_val(s.last())
    }
}

/// Ten to the `k`-th power.
pub open spec fn pow10(k: nat) -> int
    decreases k,
{
    if k == 0 {
        1
    } else {
        10 * pow10((k - 1) as nat)
    }
}

/// A digit string's value is bounded by ten to its length.
pub proof fn lemma_digits_val_bound(s: Seq<char>)
    requires
        all_digits(s),
    ensures
        0 <= digits_val(s) < pow10(s.len()),
    decreases s.len(),
{
    if s.len() > 0 {
        assert(all_digits(s.drop_last())) by {
            assert(forall|i: int| 0 <= i < s.len() - 1 ==> s.drop_last()[i] == s[i]);
        }
        lemma_digits_val_bound(s.drop_last());
        assert(is_digit(s.last()));
    }
}

/// Integer text: an optional minus sign, then one to eighteen digits.
pub open spec fn is_int_text(s: Seq<char>) -> bool {
    if s.len() > 0 && s[0] == '-' {
        1 <= s.skip(1).len() <= 18 && all_digits(s.skip(1))
    } else {
        1 <= s.len() <= 18 && all_digits(s)
    }
}

/// The signed value of integer text.
pub open spec fn int_text_val(s: Seq<char>) -> int {
    if s.len() > 0 && s[0] == '-' {
        -digits_val(s.skip(1))
    } else {
        digits_val(s)
    }
}

/// Parses signed decimal text of at most eighteen digits.
pub fn parse_int(s: &str) -> (r: Option<i64>)
    ensures
        r is Some <==> is_int_text(s@),
        r matches Some(v) ==> v as int == int_text_val(s@),
{
    proof {
        reveal_with_fuel(pow10, 20);
    }
    let n = s.unicode_len();
    if n == 0 {
        return None;
    }
    let neg = s.get_char(0) == '-';
    let start: usize = if neg {
        1
    } else {
        0
    };
    let ghost d = if neg {
        s@.skip(1)
    } else {
        s@
    };
    proof {
        assert(d.len() == n - start);
    }
    if n - start == 0 || n - start > 18 {
        return None;
    }
    let mut v: i64 = 0;
    let mut i: usize = start;
    while i < n
        invariant
            n == s@.len(),
            start <= i <= n,
            start <= 1,
            (start == 1) == (s@[0] == '-'),
            1 <= n - start <= 18,
            d == if start == 1 {
                s@.skip(1)
            } else {
                s@
            },
            forall|j: int| 0 <= j < i - start ==> is_digit(#[trigger] d[j]),
            v == digits_val(d.take(i - start)),
            0 <= v < pow10((i - start) as nat),
            pow10((i - start) as nat) <= pow10(18),
            pow10(18) == 1_000_000_000_000_000_000,
        decreases n - i,
    {
        let c = s.get_char(i);
        let u = c as u32;
        if u < 48 || u > 57 {
            proof {
                assert(d[i - start] == s@[i as int]);
                assert(!is_digit(d[i - start]));
                assert(!all_digits(d)) by {
                    assert(0 <= i - start < d.len() && !is_digit(d[i - start]));
                }
                assert(!is_int_text(s@));
            }
            return None;
        }
        proof {
            assert(d.take(i + 1 - start).drop_last() =~= d.take(i - start));
            assert(d.take(i + 1 - start).last() == d[i - start]);
            assert(d[i - start] == s@[i as int]);
            assert(pow10((i + 1 - start) as nat) == 10 * pow10((i - start) as nat));
            assert(pow10((i + 1 - start) as nat) <= pow10(18)) by {
                lemma_pow10_mono((i + 1 - start) as nat, 18);
            }
        }
        v = v * 10 + ((u - 48) as i64);
        i += 1;
    }
    proof {
        assert(d.take(n - start) =~= d);
        assert(all_digits(d));
        assert(is_int_text(s@));
    }
    if neg {
        Some(-v)
    } else {
        Some(v)
    }
}

/// `pow10` grows with the exponent.
pub proof fn lemma_pow10_mono(a: nat, b: nat)
    requires
        a <= b,
    ensures
        pow10(a) <= pow10(b),
    decreases b - a,
{
    if a < b {
        lemma_pow10_mono(a, (b - 1) as nat);
        lemma_pow10_pos((b - 1) as nat);
    }
}

/// `pow10` is positive.
pub proof fn lemma_pow10_pos(k: nat)
    ensures
        pow10(k) >= 1,
    decreases k,
{
    if k > 0 {
        lemma_pow10_pos((k - 1) as nat);
    }
}

/// The four-byte integer type and its range.
pub open spec fn is_int4_type(ty: Seq<char>) -> bool {
    ty == "int4"@ || ty == "integer"@
}

/// The eight-byte integer type.
pub open spec fn is_int8_type(ty: Seq<char>) -> bool {
    ty == "int8"@ || ty == "bigint"@
}

/// The boolean type.
pub open spec fn is_bool_type(ty: Seq<char>) -> bool {
    ty == "bool"@ || ty == "boolean"@
}

/// Coercion of raw request text to a typed value: integer types parse as a
/// signed decimal (with the four-byte range enforced), boolean types accept
/// `true`/`t`/`false`/`f`, and any other type passes the text through.
pub open spec fn spec_coerce(ty: Seq<char>, raw: Seq<char>) -> Option<SpecValue> {
    if is_int4_type(ty) {
        if is_int_text(raw) && -2147483648 <= int_text_val(raw) <= 2147483647 {
            Some(SpecValue::Int(int_text_val(raw)))
        } else {
            None
        }
    } else if is_int8_type(ty) {
        if is_int_text(raw) {
            Some(SpecValue::Int(int_text_val(raw)))
        } else {
            None
        }
    } else if is_bool_type(ty) {
        if raw == "true"@ || raw == "t"@ {
            Some(SpecValue::Bool(true))
        } else if raw == "false"@ || raw == "f"@ {
            Some(SpecValue::Bool(false))
        } else {
            None
        }
    } else {
        Some(SpecValue::Text(raw))
    }
}

/// Coerces raw request text to the argument's declared type.
pub fn coerce(ty: &str, raw: &str) -> (r: Option<PgValue>)
    ensures
        r is Some <==> spec_coerce(ty@, raw@) is Some,
        r matches Some(v) ==> spec_coerce(ty@, raw@) == Some(v@),
{
    if str_eq(ty, "int4") || str_eq(ty, "integer") {
        match parse_int(raw) {
            None => None,
            Some(v) => {
                if -2147483648 <= v && v <= 2147483647 {
                    Some(PgValue::Int(v))
                } else {
                    None
                }
            },
        }
    } else if str_eq(ty, "int8") || str_eq(ty, "bigint") {
        match parse_int(raw) {
            None => None,
            Some(v) => Some(PgValue::Int(v)),
        }
    } else if str_eq(ty, "bool") || str_eq(ty, "boolean") {
        if str_eq(raw, "true") || str_eq(raw, "t") {
            Some(PgValue::Bool(true))
        } else if str_eq(raw, "false") || str_eq(raw, "f") {
            Some(PgValue::Bool(false))
        } else {
            None
        }
    } else {
        Some(PgValue::Text(String::from_str(raw)))
    }
}

} // verus!
