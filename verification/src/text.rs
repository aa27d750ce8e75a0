//! Decimal rendering and the condition labels used by the display forms.

use vstd::prelude::*;
use vstd::string::StringExecFns;
use crate::entity::Condition;

verus! {

/// The decimal digits of a positive number, most significant first.
pub open spec fn dec_digits(n: int) -> Seq<char>
    decreases n,
{
    if n <= 0 {
        Seq::<char>::empty()
    } else {
        dec_digits(n / 10).push(digit_char(n % 10))
    }
}

/// The character of one decimal digit.
pub open spec fn digit_char(d: int) -> char {
    if d == 0 {
        '0'
    } else if d == 1 {
        '1'
    } else if d == 2 {
        '2'
    } else if d == 3 {
        '3'
    } else if d == 4 {
        '4'
    } else if d == 5 {
        '5'
    } else if d == 6 {
        '6'
    } else if d == 7 {
        '7'
    } else if d == 8 {
        '8'
    } else {
        '9'
    }
}

/// The decimal rendering of a signed number: digits, with a leading `-`
/// for negatives.
pub open spec fn dec_str(x: int) -> Seq<char> {
    if x == 0 {
        seq!['0']
    } else if x > 0 {
        dec_digits(x)
    } else {
        seq!['-'] + dec_digits(-x)
    }
}

/// Relies on std's integer `Display` formatting: decimal digits with a
/// leading `-` for negatives.
#[verifier::external_body]
pub fn i32_to_string(x: i32) -> (r: String)
    ensures
        r@ == dec_str(x as int),
{
    format!("{}", x)
}

/// The display label of a condition.
pub open spec fn spec_condition_label(c: Condition) -> Seq<char> {
    match c {
        Condition::Blinded => "Blinded"@,
        Condition::Charmed => "Charmed"@,
        Condition::Deafened => "Deafened"@,
        Condition::Frightened => "Frightened"@,
        Condition::Grappled => "Grappled"@,
        Condition::Incapacitated => "Incapacitated"@,
        Condition::Invisible => "Invisible"@,
        Condition::Paralyzed => "Paralyzed"@,
        Condition::Petrified => "Petrified"@,
        Condition::Poisoned => "Poisoned"@,
        Condition::Prone => "Prone"@,
        Condition::Restrained => "Restrained"@,
        Condition::Stunned => "Stunned"@,
        Condition::Unconscious => "Unconscious"@,
    }
}

/// The display label of a condition.
pub fn condition_label(c: Condition) -> (r: String)
    ensures
        r@ == spec_condition_label(c),
{
    match c {
        Condition::Blinded => String::from_str("Blinded"),
        Condition::Charmed => String::from_str("Charmed"),
        Condition::Deafened => String::from_str("Deafened"),
        Condition::Frightened => String::from_str("Frightened"),
        Condition::Grappled => String::from_str("Grappled"),
        Condition::Incapacitated => String::from_str("Incapacitated"),
        Condition::Invisible => String::from_str("Invisible"),
        Condition::Paralyzed => String::from_str("Paralyzed"),
        Condition::Petrified => String::from_str("Petrified"),
        Condition::Poisoned => String::from_str("Poisoned"),
        Condition::Prone => String::from_str("Prone"),
        Condition::Restrained => String::from_str("Restrained"),
        Condition::Stunned => String::from_str("Stunned"),
        Condition::Unconscious => String::from_str("Unconscious"),
    }
}

/// A condition list joined with `", "` separators, in list order.
pub open spec fn spec_conditions_joined(s: Seq<Condition>) -> Seq<char>
    decreases s.len(),
{
    if s.len() == 0 {
        Seq::<char>::empty()
    } else if s.len() == 1 {
        spec_condition_label(s[0])
    } else {
        spec_conditions_joined(s.drop_last()) + ", "@ + spec_condition_label(s.last())
    }
}

/// The conditions joined with `", "` separators, in list order.
pub fn conditions_joined(conditions: &Vec<Condition>) -> (r: String)
    ensures
        r@ == spec_conditions_joined(conditions@),
{
    let n = conditions.len();
    let mut r = String::new();
    let mut i: usize = 0;
    proof {
        assert(conditions@.subrange(0, 0) =~= Seq::<Condition>::empty());
    }
    while i < n
        invariant
            n == conditions@.len(),
            0 <= i <= n,
            r@ == spec_conditions_joined(conditions@.subrange(0, i as int)),
        decreases n - i,
    {
        proof {
            assert(conditions@.subrange(0, i + 1).drop_last() =~= conditions@.subrange(
                0,
                i as int,
            ));
            assert(conditions@.subrange(0, i + 1).last() == conditions@[i as int]);
            assert(conditions@.subrange(0, i + 1)[0] == conditions@[0]);
        }
        if i > 0 {
            r.append(", ");
        }
        let label = condition_label(conditions[i]);
        r.append(label.as_str());
        i += 1;
    }
    proof {
        assert(conditions@.subrange(0, n as int) =~= conditions@);
    }
    r
}

} // verus!
