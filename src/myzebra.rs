use vstd::prelude::*;

verus! {

/// Every character of `s` is an ASCII decimal digit.
pub open spec fn all_digits(s: Seq<char>) -> bool {
    forall|i: int| 0 <= i < s.len() ==> '0' <= #[trigger] s[i] <= '9'
}

/// The number that the decimal digits `s` spell.
pub open spec fn digits_value(s: Seq<char>) -> int
    decreases s.len(),
{
    if s.len() == 0 {
        0
    } else {
        digits_value(s.drop_last()) * 10 + (s.last() as int - '0' as int)
    }
}

/// The integer that `s` spells: an optional sign and at least one decimal
/// digit, nothing else.
pub open spec fn decimal_value(s: Seq<char>) -> Option<int> {
    if s.len() > 1 && s[0] == '-' && all_digits(s.drop_first()) {
        Some(-digits_value(s.drop_first()))
    } else if s.len() > 1 && s[0] == '+' && all_digits(s.drop_first()) {
        Some(digits_value(s.drop_first()))
    } else if s.len() > 0 && all_digits(s) {
        Some(digits_value(s))
    } else {
        None
    }
}

/// The `i32` that `s` spells, when it spells one in range.
pub open spec fn i32_value(s: Seq<char>) -> Option<i32> {
    match decimal_value(s) {
        Some(v) => if i32::MIN <= v <= i32::MAX {
            Some(v as i32)
        } else {
            None
        },
        None => None,
    }
}

/// Relies on `str::parse::<i32>`: an optional `+` or `-` followed by decimal
/// digits only, whose value fits in `i32`; anything else is an error.
#[verifier::external_body]
fn parse_i32(s: &str) -> (r: Option<i32>)
    ensures
        r == i32_value(s@),
{
    s.parse::<i32>().ok()
}

/// How many places the position named `v2` lies to the right of the one
/// named `v1`.
pub fn distance(v1: &str, v2: &str) -> (r: i32)
    requires
        i32_value(v1@) is Some,
        i32_value(v2@) is Some,
        i32::MIN <= i32_value(v2@)->0 - i32_value(v1@)->0 <= i32::MAX,
    ensures
        r == i32_value(v2@)->0 - i32_value(v1@)->0,
{
    let a = parse_i32(v1).unwrap();
    let b = parse_i32(v2).unwrap();
    b - a
}

/// The position named `v2` is the one just right of the one named `v1`;
/// false where either is not a number.
pub fn is_immediately_to_the_right(v1: &str, v2: &str) -> (r: bool)
    ensures
        r == (i32_value(v1@) is Some && i32_value(v2@) is Some && i32_value(v2@)->0 - i32_value(v1@)->0 == 1),
{
    match (parse_i32(v1), parse_i32(v2)) {
        (Some(a), Some(b)) => (b as i64) - (a as i64) == 1,
        _ => false,
    }
}

/// The positions named `v1` and `v2` are neighbours; false where either is
/// not a number.
pub fn is_next_to(v1: &str, v2: &str) -> (r: bool)
    ensures
        r == (i32_value(v1@) is Some && i32_value(v2@) is Some && (i32_value(v2@)->0 - i32_value(v1@)->0 == 1
            || i32_value(v2@)->0 - i32_value(v1@)->0 == -1)),
{
    match (parse_i32(v1), parse_i32(v2)) {
        (Some(a), Some(b)) => {
            let d = (b as i64) - (a as i64);
            d == 1 || d == -1
        },
        _ => false,
    }
}

} // verus!
