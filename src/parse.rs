//! Reading a number from its decimal text, where `_` may group the digits.
use vstd::prelude::*;
use vstd::string::{StringExecFns, StringSliceAdditionalSpecFns};

verus! {

/// The text with every `_` taken out.
pub open spec fn without_separators(s: Seq<u8>) -> Seq<u8>
    decreases s.len(),
{
    if s.len() == 0 {
        Seq::empty()
    } else if s.last() == 95u8 {
        without_separators(s.drop_last())
    } else {
        without_separators(s.drop_last()).push(s.last())
    }
}

/// An ASCII decimal digit.
pub open spec fn is_digit(b: u8) -> bool {
    48 <= b <= 57
}

/// The value of a string of decimal digits, most significant first.
pub open spec fn decimal_value(d: Seq<u8>) -> int
    decreases d.len(),
{
    if d.len() == 0 {
        0
    } else {
        decimal_value(d.drop_last()) * 10 + (d.last() - 48)
    }
}

/// The digits of a number's text: what follows the leading `+`, if any.
pub open spec fn digits_of(s: Seq<u8>) -> Seq<u8> {
    if s.len() > 0 && s[0] == 43u8 {
        s.drop_first()
    } else {
        s
    }
}

/// `s` writes an unsigned 128-bit integer: an optional `+`, then at least one
/// decimal digit and nothing else, for a value that fits in 128 bits.
pub open spec fn is_decimal_u128(s: Seq<u8>) -> bool {
    let d = digits_of(s);
    &&& d.len() > 0
    &&& forall|i: int| 0 <= i < d.len() ==> #[trigger] is_digit(d[i])
    &&& decimal_value(d) <= u128::MAX
}

/// The message that rejects `s` as a number.
pub open spec fn rejection_text(s: Seq<char>) -> Seq<char> {
    "Not possible to convert '"@ + s + "' into a positive integer"@
}

/// A prefix of a string of digits has no greater value than the whole.
proof fn lemma_prefix_value(d: Seq<u8>, i: int)
    requires
        0 <= i <= d.len(),
        forall|k: int| 0 <= k < d.len() ==> #[trigger] is_digit(d[k]),
    ensures
        0 <= decimal_value(d.take(i)) <= decimal_value(d),
    decreases d.len(),
{
    if d.len() > 0 {
        let rest = d.drop_last();
        assert(is_digit(d[d.len() - 1]));
        assert forall|k: int| 0 <= k < rest.len() implies #[trigger] is_digit(rest[k]) by {
            assert(rest[k] == d[k]);
        }
        if i == d.len() {
            lemma_prefix_value(rest, i - 1);
            assert(rest.take(i - 1) =~= rest);
        } else {
            lemma_prefix_value(rest, i);
            assert(rest.take(i) =~= d.take(i));
        }
    }
    if i == d.len() {
        assert(d.take(i) =~= d);
    } else {
        assert(d.len() > 0);
    }
}

/// The message that rejects `input` as a number.
fn rejection_message(input: &str) -> (r: String)
    ensures
        r@ == rejection_text(input@),
{
    String::from_str("Not possible to convert '").concat(input).concat(
        "' into a positive integer",
    )
}

/// Reads a number from its decimal text, after taking out every `_`: an
/// optional `+`, then decimal digits, for a value that fits in 128 bits.
pub fn parse_to_integer(input: &str) -> (r: Result<u128, String>)
    ensures
        match r {
            Ok(v) => is_decimal_u128(without_separators(input.spec_bytes())) && v
                == decimal_value(digits_of(without_separators(input.spec_bytes()))),
            Err(e) => !is_decimal_u128(without_separators(input.spec_bytes())) && e@
                == rejection_text(input@),
        },
{
    let bytes: &[u8] = input.as_bytes();
    let mut kept: Vec<u8> = Vec::new();
    let mut i: usize = 0;
    while i < bytes.len()
        invariant
            bytes@ == input.spec_bytes(),
            i <= bytes@.len(),
            kept@ == without_separators(bytes@.take(i as int)),
        decreases bytes@.len() - i,
    {
        assert(bytes@.take(i + 1).drop_last() =~= bytes@.take(i as int));
        if bytes[i] != 95u8 {
            kept.push(bytes[i]);
        }
        i = i + 1;
    }
    assert(bytes@.take(bytes@.len() as int) =~= bytes@);
    let ghost text: Seq<u8> = kept@;
    let start: usize = if kept.len() > 0 && kept[0] == 43u8 {
        1
    } else {
        0
    };
    let ghost digits: Seq<u8> = text.subrange(start as int, text.len() as int);
    assert(digits =~= digits_of(text));
    if start >= kept.len() {
        return Err(rejection_message(input));
    }
    let mut value: u128 = 0;
    let mut j: usize = start;
    while j < kept.len()
        invariant
            kept@ == text,
            text == without_separators(input.spec_bytes()),
            digits == digits_of(text),
            digits == text.subrange(start as int, text.len() as int),
            start <= j <= text.len(),
            value == decimal_value(digits.take(j - start)),
            forall|k: int| 0 <= k < j - start ==> #[trigger] is_digit(digits[k]),
        decreases text.len() - j,
    {
        let b: u8 = kept[j];
        assert(digits.take(j + 1 - start).drop_last() =~= digits.take(j - start));
        if b < 48 || b > 57 {
            assert(!is_digit(digits[j - start]));
            return Err(rejection_message(input));
        }
        let next: Option<u128> = match value.checked_mul(10) {
            Some(tens) => tens.checked_add((b - 48) as u128),
            None => None,
        };
        match next {
            Some(v) => {
                value = v;
            },
            None => {
                proof {
                    if forall|k: int| 0 <= k < digits.len() ==> #[trigger] is_digit(digits[k]) {
                        lemma_prefix_value(digits, j + 1 - start);
                    }
                }
                return Err(rejection_message(input));
            },
        }
        j = j + 1;
    }
    assert(digits.take(j - start) =~= digits);
    Ok(value)
}

} // verus!
