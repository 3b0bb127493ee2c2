//! The value type: a number with a unit, kept and computed by the `value_unit`
//! crate. Nothing in this file is proved. Each function here calls into that
//! crate, and its contract names what the crate returns.
//!
//! The crate keeps the units of a value to itself, and some of its
//! operations do not return for some units. Such an operation is asked for
//! only where it is known to return. It is known to return where the operand
//! whose units it computes with has none.
//!
//! The number of a power and of a root is not named: the crate computes it
//! with `powi` and `powf`, whose last bit std leaves open. Of a power and a
//! root only that much is said which holds of whatever comes back.

use crate::ieee::canonical;
use crate::text::{has_word, is_white_space};
use std::collections::HashMap;
use value_unit::{TryAdd, TrySub, ValueUnit};
use vstd::prelude::*;

verus! {

/// `value_unit::ValueUnit`, a number and the units it is measured in. Its
/// inside is not read here: a value is handed on as it is.
#[verifier::external_type_specification]
#[verifier::external_body]
pub struct ExValueUnit(ValueUnit);

/// The IEEE 754 bit pattern of the number that `v` holds, every NaN taken
/// as one pattern.
pub uninterp spec fn magnitude_of(v: ValueUnit) -> u64;

/// The IEEE 754 bit pattern of one divided by the number that `v` holds,
/// every NaN taken as one pattern.
pub uninterp spec fn reciprocal_of(v: ValueUnit) -> u64;

/// The units that `v` is measured in, each with its power, as the crate
/// keeps them.
pub uninterp spec fn units_of(v: ValueUnit) -> Map<Seq<char>, int>;

/// Whether `v` has no unit.
pub open spec fn no_units(v: ValueUnit) -> bool {
    units_of(v) == Map::<Seq<char>, int>::empty()
}

/// What `ValueUnit::try_from` makes of a `text` that holds a word: the
/// value that it reads, or no value where it returns an error. `None` where
/// the text gives a unit with a name of its own, such as `W`, a power that
/// leaves `i8` while it is spread over the base units, in whichever order
/// the crate takes the units.
pub uninterp spec fn literal_of(text: Seq<char>) -> Option<Option<ValueUnit>>;

/// What `try_add` returns for `a + b`: `None` where it returns an error,
/// which it does where the units of the two differ.
pub uninterp spec fn sum_of(a: ValueUnit, b: ValueUnit) -> Option<ValueUnit>;

/// What `try_sub` returns for `a - b`: `None` where it returns an error,
/// which it does where the units of the two differ.
pub uninterp spec fn difference_of(a: ValueUnit, b: ValueUnit) -> Option<ValueUnit>;

/// What `&a * &b` returns: `None` where the sum of the two powers of a unit
/// that both have leaves `i8`.
pub uninterp spec fn product_of(a: ValueUnit, b: ValueUnit) -> Option<ValueUnit>;

/// What `&a / &b` returns: `None` where the difference of the two powers of
/// a unit that both have, or the negated power of a unit that only `b` has,
/// leaves `i8`.
pub uninterp spec fn quotient_of(a: ValueUnit, b: ValueUnit) -> Option<ValueUnit>;

/// The units of what `base.pow(exponent)` returns: `None` where the power
/// of a unit of `base` times `exponent` leaves `i8`. The number of what it
/// returns has no name.
pub uninterp spec fn power_units(base: ValueUnit, exponent: i8) -> Option<Map<Seq<char>, int>>;

/// The units of what `base.root(degree)` returns: `None` where `base` has a
/// unit and `degree` is zero, where `degree` does not divide the power of a
/// unit of `base`, and where that power divided by `degree` leaves `i8`.
/// The number of what it returns has no name.
pub uninterp spec fn root_units(base: ValueUnit, degree: i8) -> Option<Map<Seq<char>, int>>;

/// Whether a unit can end before `end`: the text ends there, or white
/// space or the `^` of a power stands there.
pub open spec fn unit_ends(text: Seq<char>, end: int) -> bool {
    end == text.len() || (end < text.len() && (is_white_space(text[end]) || text[end] == '^'))
}

/// Whether one of the units that the crate knows by a name of their own,
/// `Hz`, `N`, `Pa`, `J`, `W`, `V`, `Ohm` and `T`, can be read at `i`: the
/// name is written there, behind white space, and a unit can end behind it.
/// The crate reads a unit from a word of the text that is not the first, up
/// to the word's first `^`.
pub open spec fn derived_unit_at(text: Seq<char>, i: int) -> bool {
    &&& 0 < i < text.len()
    &&& is_white_space(text[i - 1])
    &&& {
        ||| (text[i] == 'N' || text[i] == 'J' || text[i] == 'W' || text[i] == 'V' || text[i]
            == 'T') && unit_ends(text, i + 1)
        ||| i + 1 < text.len() && text[i] == 'H' && text[i + 1] == 'z' && unit_ends(text, i + 2)
        ||| i + 1 < text.len() && text[i] == 'P' && text[i + 1] == 'a' && unit_ends(text, i + 2)
        ||| i + 2 < text.len() && text[i] == 'O' && text[i + 1] == 'h' && text[i + 2] == 'm'
            && unit_ends(text, i + 3)
    }
}

/// Whether such a unit can be read anywhere in `text`. The crate computes
/// with the power of a unit that it reads only where the unit has such a
/// name.
pub open spec fn names_derived_unit(text: Seq<char>) -> bool {
    exists|i: int| 0 <= i < text.len() && derived_unit_at(text, i)
}

/// A value of the number of `v` and of no units, made by `ValueUnit::new`
/// of the crate's public field `value` and an empty map.
#[verifier::external_body]
pub(crate) fn without_units(v: &ValueUnit) -> (bare: ValueUnit)
    ensures
        no_units(bare),
{
    ValueUnit::new(v.value, HashMap::new())
}

/// Reads a literal with `ValueUnit::try_from`, a number and then its units.
/// The contract names what comes out of `text`, a value or none where the
/// crate returns an error, and asks that the crate returns, which it does
/// where no unit that it computes with can be read in the text. The error's message
/// is dropped. The crate takes the first word of the text without looking
/// whether there is one, so the text has to hold a word.
#[verifier::external_body]
pub(crate) fn read_literal(text: &Vec<char>) -> (value: Option<ValueUnit>)
    requires
        has_word(text@),
        literal_of(text@) is Some || !names_derived_unit(text@),
    ensures
        literal_of(text@) == Some(value),
{
    ValueUnit::try_from(text.iter().collect::<String>()).ok()
}

/// Copies a value with `ValueUnit::clone`: the copy is the same value.
#[verifier::external_body]
pub(crate) fn copy_value(v: &ValueUnit) -> (copy: ValueUnit)
    ensures
        copy == *v,
{
    v.clone()
}

/// Adds with `TryAdd::try_add`. The contract names the sum, and says that
/// there is none where the crate returns an error, which is where the units
/// of the two are not the same.
#[verifier::external_body]
pub(crate) fn add_values(a: &ValueUnit, b: &ValueUnit) -> (sum: Option<ValueUnit>)
    ensures
        sum == sum_of(*a, *b),
        sum is Some <==> units_of(*a) == units_of(*b),
{
    a.try_add(b).ok()
}

/// Subtracts with `TrySub::try_sub`. The contract names the difference, and
/// says that there is none where the crate returns an error, which is where
/// the units of the two are not the same.
#[verifier::external_body]
pub(crate) fn subtract_values(a: &ValueUnit, b: &ValueUnit) -> (difference: Option<ValueUnit>)
    ensures
        difference == difference_of(*a, *b),
        difference is Some <==> units_of(*a) == units_of(*b),
{
    a.try_sub(b).ok()
}

/// Multiplies with the crate's `Mul` for two references. The contract names
/// the product, and asks that there is one, which there is where one of the
/// two has no unit: the crate adds powers only of units that both have.
#[verifier::external_body]
pub(crate) fn multiply_values(a: &ValueUnit, b: &ValueUnit) -> (product: ValueUnit)
    requires
        product_of(*a, *b) is Some || no_units(*a) || no_units(*b),
    ensures
        product_of(*a, *b) == Some(product),
{
    a * b
}

/// Divides with the crate's `Div` for two references. The contract names
/// the quotient, and asks that there is one, which there is where `b` has no
/// unit: the crate computes with the powers of the units of `b` only.
#[verifier::external_body]
pub(crate) fn divide_values(a: &ValueUnit, b: &ValueUnit) -> (quotient: ValueUnit)
    requires
        quotient_of(*a, *b) is Some || no_units(*b),
    ensures
        quotient_of(*a, *b) == Some(quotient),
{
    a / b
}

/// Raises to a whole power with `ValueUnit::pow`. The contract asks that
/// the crate returns, which it does where `base` has no unit. Of the power
/// it names the units, and says that there are none where `base` has none.
/// Of its number it says nothing: that is the crate's `powi`, which std
/// does not promise to be the same for the same operands.
#[verifier::external_body]
pub(crate) fn raise_value(base: &ValueUnit, exponent: i8) -> (power: ValueUnit)
    requires
        power_units(*base, exponent) is Some || no_units(*base),
    ensures
        power_units(*base, exponent) == Some(units_of(power)),
        no_units(*base) ==> no_units(power),
{
    base.pow(exponent)
}

/// Takes a whole root with `ValueUnit::root`. The contract asks that the
/// crate returns, which it does where `base` has no unit. Of the root it
/// names the units, and says that there are none where `base` has none. Of
/// its number it says nothing: that is the crate's `powf`, which std does
/// not promise to be the same for the same operands.
#[verifier::external_body]
pub(crate) fn root_value(base: &ValueUnit, degree: i8) -> (root: ValueUnit)
    requires
        root_units(*base, degree) is Some || no_units(*base),
    ensures
        root_units(*base, degree) == Some(units_of(root)),
        no_units(*base) ==> no_units(root),
{
    base.root(degree)
}

/// The bit pattern of the number in `v`, read from the crate's public field
/// `value` with `to_bits`. Folded, it is the magnitude of `v`.
#[verifier::external_body]
pub(crate) fn magnitude_bits(v: &ValueUnit) -> (bits: u64)
    ensures
        canonical(bits) == magnitude_of(*v),
{
    v.value.to_bits()
}

/// The bit pattern of one divided by the number in `v`, computed with
/// `recip` on the crate's public field `value`. Folded, it is the
/// reciprocal of `v`.
#[verifier::external_body]
pub(crate) fn reciprocal_bits(v: &ValueUnit) -> (bits: u64)
    ensures
        canonical(bits) == reciprocal_of(*v),
{
    v.value.recip().to_bits()
}

} // verus!
