//! Laws that tie the operations of `BigInt` together, stated over the models
//! that their contracts use.

use crate::chunks::{grown_len, lemma_chunks_of_value, lemma_value_bound, sum_chunks, value_of};
use crate::number::BigInt;
use crate::radix::{
    canonical_digits, digits_value, is_digit_string, lemma_render_canonical,
    lemma_render_reads_back, render, Base,
};
use vstd::prelude::*;

verus! {

/// Parsing a digit string with `from_string` and writing the result with
/// `to_string` in the same base gives the canonical form of the string:
/// upper-case letters, no leading zero, and `"0"` for zero.
pub proof fn law_parse_then_render(s: Seq<char>, base: Base)
    requires
        is_digit_string(s, base.radix()),
    ensures
        render(digits_value(s, base.radix()), base.radix()) == canonical_digits(s),
{
    lemma_render_canonical(s, base.radix());
}

/// Writing a value with `to_string` and parsing the text back with
/// `from_string` in the same base gives the same number: the text is a digit
/// string of the base, and it stands for the value.
pub proof fn law_render_then_parse(v: BigInt, base: Base)
    ensures
        is_digit_string(render(v.value(), base.radix()), base.radix()),
        digits_value(render(v.value(), base.radix()), base.radix()) == v.value(),
{
    lemma_render_reads_back(v.value(), base.radix());
}

/// Adding the empty value (`from_bytes` of no chunks) leaves a value
/// unchanged, chunk for chunk.
pub proof fn law_add_empty_is_identity(v: BigInt)
    ensures
        sum_chunks(v@, Seq::<u8>::empty()) == v@,
{
    lemma_value_bound(v@);
    lemma_chunks_of_value(v@);
    assert(value_of(Seq::<u8>::empty()) == 0);
    assert(grown_len(value_of(v@), v@.len()) == v@.len());
}

/// Addition is commutative, chunk for chunk: `a + b` and `b + a` have the
/// same chunks.
pub proof fn law_add_commutes(a: BigInt, b: BigInt)
    ensures
        sum_chunks(a@, b@) == sum_chunks(b@, a@),
{
}

} // verus!
