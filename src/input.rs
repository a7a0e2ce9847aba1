//! Reading typed values from a line of user input, with a default.
use vstd::prelude::*;
use vstd::string::StringSliceAdditionalSpecFns;

verus! {

/// A value that can be read from a trimmed line of input.
pub trait FromInput: Sized {
    fn from_input(input: &str) -> Result<Self, &'static str>;
}

/// What to do with the default value when the input is empty.
#[derive(Clone, Copy, Debug, PartialEq, Eq, Structural)]
pub enum InputHandling {
    Ignore,
    Accept,
}

/// How a type treats its default value.
pub trait DefaultHandling {
    fn handle_default() -> InputHandling;
}

impl DefaultHandling for String {
    fn handle_default() -> InputHandling {
        InputHandling::Ignore
    }
}

impl DefaultHandling for u32 {
    fn handle_default() -> InputHandling {
        InputHandling::Accept
    }
}

impl DefaultHandling for char {
    fn handle_default() -> InputHandling {
        InputHandling::Accept
    }
}

pub open spec fn is_digit(b: u8) -> bool {
    48 <= b <= 57
}

/// Value of the decimal digits `s[0..k]`.
pub open spec fn decimal_value(s: Seq<u8>, k: int) -> int
    decreases k,
{
    if k <= 0 { 0 } else { 10 * decimal_value(s, k - 1) + (s[k - 1] - 48) }
}

/// Where the digits start: after an optional leading `+`.
pub open spec fn digits_start(s: Seq<u8>) -> int {
    if s.len() > 0 && s[0] == 43 { 1 } else { 0 }
}

/// The text is an unsigned decimal integer: an optional `+`, then one or
/// more ASCII digits.
pub open spec fn is_decimal(s: Seq<u8>) -> bool {
    &&& s.len() > digits_start(s)
    &&& forall|i: int| digits_start(s) <= i < s.len() ==> is_digit(#[trigger] s[i])
}

/// The value of a decimal text (see `is_decimal`).
pub open spec fn decimal_of(s: Seq<u8>) -> int {
    decimal_value(s.subrange(digits_start(s), s.len() as int), s.len() - digits_start(s))
}

proof fn lemma_decimal_mono(s: Seq<u8>, k: int)
    requires
        0 <= k <= s.len(),
        forall|i: int| 0 <= i < s.len() ==> is_digit(#[trigger] s[i]),
    ensures
        decimal_value(s, k) >= 0,
        decimal_value(s, k) <= decimal_value(s, s.len() as int),
    decreases s.len() - k,
{
    if k < s.len() {
        lemma_decimal_mono(s, k + 1);
    }
    if k > 0 {
        lemma_decimal_nonneg(s, k);
    }
}

proof fn lemma_decimal_nonneg(s: Seq<u8>, k: int)
    requires
        0 <= k <= s.len(),
        forall|i: int| 0 <= i < s.len() ==> is_digit(#[trigger] s[i]),
    ensures
        decimal_value(s, k) >= 0,
    decreases k,
{
    if k > 0 {
        lemma_decimal_nonneg(s, k - 1);
    }
}

/// Reads an unsigned 32-bit decimal integer.
pub fn parse_u32(input: &str) -> (r: Result<u32, &'static str>)
    ensures
        r is Ok <==> is_decimal(input.spec_bytes()) && decimal_of(input.spec_bytes()) <= u32::MAX,
        r is Ok ==> r->Ok_0 == decimal_of(input.spec_bytes()),
{
    let b = input.as_bytes();
    let ghost s = b@;
    let start: usize = if b.len() > 0 && b[0] == 43 { 1 } else { 0 };
    if b.len() <= start {
        return Err("Invalid integer value");
    }
    let ghost body = s.subrange(start as int, s.len() as int);
    let mut value: u64 = 0;
    let mut i: usize = start;
    while i < b.len()
        invariant
            start <= i <= b@.len(),
            s == b@,
            s == input.spec_bytes(),
            body == s.subrange(start as int, s.len() as int),
            start == digits_start(s),
            forall|j: int| start <= j < i ==> is_digit(#[trigger] s[j]),
            value == decimal_value(body, i - start),
            value <= u32::MAX,
        decreases b@.len() - i,
    {
        let c = b[i];
        if c < 48 || c > 57 {
            assert(!is_digit(s[i as int]));
            assert(!is_decimal(s));
            assert(s == input.spec_bytes());
            return Err("Invalid integer value");
        }
        assert(body[i - start] == s[i as int]);
        value = value * 10 + (c - 48) as u64;
        if value > 0xffff_ffff {
            proof {
                assert(value == decimal_value(body, i + 1 - start));
                if is_decimal(s) {
                    assert forall|j: int| 0 <= j < body.len() implies is_digit(#[trigger] body[j]) by {
                        assert(body[j] == s[j + start]);
                    }
                    lemma_decimal_mono(body, i + 1 - start);
                    assert(body =~= s.subrange(digits_start(s), s.len() as int));
                }
            }
            return Err("Invalid integer value");
        }
        i = i + 1;
    }
    assert(body =~= s.subrange(digits_start(s), s.len() as int));
    Ok(value as u32)
}

/// Reads the first character of the text.
pub fn parse_char(input: &str) -> (r: Result<char, &'static str>)
    ensures
        r is Ok <==> input@.len() > 0,
        r is Ok ==> r->Ok_0 == input@[0],
{
    let mut it = input.chars();
    match it.next() {
        Some(c) => Ok(c),
        None => Err("Invalid char value"),
    }
}

impl FromInput for String {
    fn from_input(input: &str) -> Result<Self, &'static str> {
        Ok(input.to_owned())
    }
}

impl FromInput for u32 {
    fn from_input(input: &str) -> Result<Self, &'static str> {
        parse_u32(input)
    }
}

impl FromInput for char {
    fn from_input(input: &str) -> Result<Self, &'static str> {
        parse_char(input)
    }
}

} // verus!
