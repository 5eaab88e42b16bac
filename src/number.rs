//! The big integer type and its operations.

use crate::chunks::{
    bytes_of, chunk_at, chunks_equal, chunks_of, grown_len, lemma_bytes_of, lemma_chunks_of_value,
    lemma_grown_is_bytes_of, lemma_pow256_step, lemma_prefix_step, lemma_trimmed_is_bytes_of,
    lemma_value_bound, lemma_value_push, lemma_value_zero, prefix_value, sum_chunks, value_of,
};
use crate::radix::{
    digit_char, digit_chars, digit_of, digits_value, is_digit_in, is_digit_string, render, Base,
};
use vstd::arithmetic::div_mod::*;
use vstd::arithmetic::power::*;
use vstd::prelude::*;

verus! {

/// A non-negative integer of any size, stored as byte chunks in little-endian
/// order: chunk `i` weighs `256^i`.
#[derive(Clone, Debug)]
pub struct BigInt {
    data: Vec<u8>,
}

impl View for BigInt {
    type V = Seq<u8>;

    /// The stored chunks, least significant first.
    closed spec fn view(&self) -> Seq<u8> {
        self.data@
    }
}

/// The characters of the digit values `ds`, taken from the last to the first.
spec fn reversed_digits(ds: Seq<u8>) -> Seq<char> {
    Seq::new(ds.len(), |i: int| digit_char(ds[ds.len() - 1 - i] as nat))
}

/// The decimal numbers of the chunks `s`, separated by `", "`.
pub open spec fn chunk_list_text(s: Seq<u8>) -> Seq<char>
    decreases s.len(),
{
    if s.len() == 0 {
        seq![]
    } else if s.len() == 1 {
        render(s[0] as nat, 10)
    } else {
        chunk_list_text(s.drop_last()) + ", "@ + render(s.last() as nat, 10)
    }
}

/// The value of a digit character: `'0'..='9'` are 0 to 9, letters of either
/// case are 10 to 35.
fn digit_value(character: char) -> (r: u8)
    requires
        digit_of(character) is Some,
    ensures
        digit_of(character) == Some(r as nat),
{
    let code = character as u32;
    if code <= '9' as u32 {
        (code - '0' as u32) as u8
    } else if code <= 'Z' as u32 {
        (code - 'A' as u32 + 10) as u8
    } else {
        (code - 'a' as u32 + 10) as u8
    }
}

impl BigInt {
    /// The number that the value stands for.
    pub open spec fn value(&self) -> nat {
        value_of(self@)
    }

    /// Create a new `BigInt` from little-endian byte chunks, kept as given.
    pub fn from_bytes(data: Vec<u8>) -> (r: Self)
        ensures
            r@ == data@,
    {
        BigInt { data }
    }

    /// The stored chunks, least significant first.
    pub fn data(&self) -> (r: &Vec<u8>)
        ensures
            r@ == self@,
    {
        &self.data
    }

    /// Returns `true` if the value is zero: no chunks, or only zero chunks.
    pub fn is_zero(&self) -> (r: bool)
        ensures
            r == (self.value() == 0),
    {
        proof {
            lemma_value_zero(self@);
        }
        if self.data.len() == 0 {
            return true;
        }
        let mut i: usize = 0;
        while i < self.data.len()
            invariant
                i <= self.data@.len(),
                forall|j: int| 0 <= j < i ==> self.data@[j] == 0,
            decreases self.data@.len() - i,
        {
            if self.data[i] != 0 {
                proof {
                    lemma_value_zero(self@);
                    assert(self@[i as int] != 0);
                }
                return false;
            }
            i += 1;
        }
        true
    }

    /// Multiply by a small number. A zero value gives an empty result;
    /// otherwise the result has as many chunks as the value, and one more when
    /// the product needs it.
    pub fn multiply_by_small(&self, multiplier: u8) -> (r: BigInt)
        ensures
            r.value() == self.value() * (multiplier as nat),
            r@ == if self.value() == 0 {
                seq![]
            } else {
                chunks_of(
                    self.value() * (multiplier as nat),
                    grown_len(self.value() * (multiplier as nat), self@.len()),
                )
            },
    {
        if self.is_zero() {
            return BigInt::from_bytes(Vec::new());
        }
        let ghost m = multiplier as nat;
        let mut result: Vec<u8> = Vec::new();
        let mut carry: u16 = 0;
        let mut i: usize = 0;
        proof {
            lemma_prefix_step(self.data@, 0);
            lemma_pow256_step(0);
            assert(result@ =~= Seq::<u8>::empty());
        }
        while i < self.data.len()
            invariant
                i <= self.data@.len(),
                result@.len() == i,
                carry < 256,
                m == multiplier,
                value_of(result@) + carry * pow(256, i as nat) == prefix_value(
                    self.data@,
                    i as nat,
                ) * m,
            decreases self.data@.len() - i,
        {
            let digit = self.data[i];
            assert(digit * m + carry <= 65280) by (nonlinear_arith)
                requires
                    digit < 256,
                    m < 256,
                    carry < 256,
            ;
            let prod = digit as u16 * multiplier as u16 + carry;
            let ghost before = result@;
            let ghost c0 = carry as nat;
            result.push((prod % 256) as u8);
            carry = prod / 256;
            proof {
                let k = i as nat;
                let p = pow(256, k);
                let low = ((prod % 256) as u8) as nat;
                lemma_prefix_step(self.data@, k);
                lemma_pow256_step(k);
                lemma_value_push(before, (prod % 256) as u8);
                assert(digit == chunk_at(self.data@, k));
                assert(low + 256 * (carry as nat) == prod);
                assert(value_of(before) + low * p + carry * (256 * p) == value_of(before) + c0 * p
                    + (digit * p) * m) by (nonlinear_arith)
                    requires
                        low + 256 * (carry as nat) == prod,
                        prod == digit * m + c0,
                ;
                assert((prefix_value(self.data@, k) + digit * p) * m == prefix_value(self.data@, k)
                    * m + (digit * p) * m) by (nonlinear_arith);
            }
            i += 1;
        }
        proof {
            lemma_prefix_step(self.data@, self.data@.len());
            lemma_value_bound(result@);
        }
        let ghost low = result@;
        let ghost product = self.value() * m;
        assert(value_of(low) + carry * pow(256, low.len()) == product);
        if carry > 0 {
            result.push(carry as u8);
            proof {
                lemma_value_push(low, carry as u8);
                assert(product >= pow(256, low.len())) by (nonlinear_arith)
                    requires
                        value_of(low) + carry * pow(256, low.len()) == product,
                        carry > 0,
                ;
            }
        }
        proof {
            lemma_chunks_of_value(result@);
        }
        BigInt::from_bytes(result)
    }

    /// Divide by a small divisor and return the pair (quotient, remainder).
    /// A zero value gives an empty quotient; otherwise the quotient has no
    /// zero chunk on top and keeps at least one chunk.
    pub fn divide_by_small(&self, divisor: u8) -> (r: (BigInt, u8))
        requires
            divisor > 0,
        ensures
            r.0.value() == self.value() / divisor as nat,
            r.1 as nat == self.value() % divisor as nat,
            r.0@ == if self.value() == 0 {
                seq![]
            } else if self.value() / divisor as nat == 0 {
                seq![0u8]
            } else {
                bytes_of(self.value() / divisor as nat)
            },
    {
        if self.is_zero() {
            return (BigInt::from_bytes(Vec::new()), 0);
        }
        let n = self.data.len();
        let d = divisor as u16;
        let mut remainder: u16 = 0;
        let mut quotient: Vec<u8> = vec![0u8; n];

        // The representation is little-endian: start from the most significant chunk.
        let mut i: usize = n;
        assert(self.data@.subrange(n as int, n as int) =~= Seq::<u8>::empty());
        assert(quotient@.subrange(n as int, n as int) =~= Seq::<u8>::empty());
        assert(value_of(Seq::<u8>::empty()) == 0);
        while i > 0
            invariant
                i <= n,
                n == self.data@.len(),
                quotient@.len() == n,
                d == divisor as u16,
                d > 0,
                remainder < d,
                value_of(self.data@.subrange(i as int, n as int)) == value_of(
                    quotient@.subrange(i as int, n as int),
                ) * d + remainder,
            decreases i,
        {
            let ghost old_q = quotient@;
            let ghost r0 = remainder as nat;
            i -= 1;
            let chunk = self.data[i];
            assert(r0 * 256 + chunk < 256 * d) by (nonlinear_arith)
                requires
                    r0 < d,
                    chunk < 256,
            ;
            let t = remainder * 256 + chunk as u16;
            let digit = t / d;
            assert(digit < 256) by (nonlinear_arith)
                requires
                    t < 256 * d,
                    digit == t / d,
                    d > 0,
            ;
            quotient.set(i, digit as u8);
            remainder = t % d;
            proof {
                let s = self.data@;
                let high = value_of(old_q.subrange(i + 1, n as int));
                assert(s.subrange(i as int, n as int).drop_first() =~= s.subrange(
                    i + 1,
                    n as int,
                ));
                assert(quotient@.subrange(i as int, n as int).drop_first() =~= old_q.subrange(
                    i + 1,
                    n as int,
                ));
                assert(t == digit * d + remainder) by (nonlinear_arith)
                    requires
                        digit == t / d,
                        remainder == t % d,
                        d > 0,
                ;
                assert((digit + 256 * high) * d + remainder == chunk + 256 * (high * d + r0))
                    by (nonlinear_arith)
                    requires
                        t == digit * d + remainder,
                        t == r0 * 256 + chunk,
                ;
            }
        }
        assert(self.data@.subrange(0, n as int) =~= self.data@);
        assert(quotient@.subrange(0, n as int) =~= quotient@);
        let ghost q = value_of(quotient@);

        // Remove the zero chunks on top (the last ones in little-endian order).
        while quotient.len() > 1 && quotient[quotient.len() - 1] == 0
            invariant
                quotient@.len() >= 1,
                value_of(quotient@) == q,
            decreases quotient@.len(),
        {
            let ghost before = quotient@;
            quotient.pop();
            proof {
                assert(before =~= quotient@.push(0));
                lemma_value_push(quotient@, 0);
            }
        }
        proof {
            lemma_fundamental_div_mod_converse(
                self.value() as int,
                divisor as int,
                q as int,
                remainder as int,
            );
            lemma_value_zero(quotient@);
            if q == 0 {
                assert(quotient@ =~= seq![0u8]);
            } else {
                lemma_trimmed_is_bytes_of(quotient@);
            }
        }
        (BigInt::from_bytes(quotient), remainder as u8)
    }
    /// Create a new `BigInt` from a string of digits of the given base, most
    /// significant first; letters of either case stand for 10 and on. The
    /// empty string gives zero with no chunks, other strings for zero give
    /// one zero chunk, and the rest the shortest chunk sequence.
    pub fn from_string(data: String, base: Base) -> (r: Self)
        requires
            is_digit_string(data@, base.radix()),
        ensures
            r.value() == digits_value(data@, base.radix()),
            r@ == if data@.len() > 0 && digits_value(data@, base.radix()) == 0 {
                seq![0u8]
            } else {
                bytes_of(digits_value(data@, base.radix()))
            },
    {
        let radix = base.to_radix();
        let mut result = BigInt::from_bytes(Vec::new());
        let text = data.as_str();
        let length = text.unicode_len();
        let mut i: usize = 0;
        proof {
            assert(data@.take(0) =~= Seq::<char>::empty());
            lemma_bytes_of(0);
            assert(result@ =~= bytes_of(0));
        }
        while i < length
            invariant
                length == data@.len(),
                text@ == data@,
                radix as nat == base.radix(),
                2 <= radix <= 16,
                is_digit_string(data@, radix as nat),
                i <= length,
                result@ == if i > 0 && digits_value(data@.take(i as int), radix as nat) == 0 {
                    seq![0u8]
                } else {
                    bytes_of(digits_value(data@.take(i as int), radix as nat))
                },
            decreases length - i,
        {
            let character = text.get_char(i);
            assert(is_digit_in(data@[i as int], radix as nat));
            let value = digit_value(character);
            let ghost prev = digits_value(data@.take(i as int), radix as nat);
            let ghost old_result = result@;
            let scaled = result.multiply_by_small(radix);
            let single = BigInt::from_bytes(vec![value]);
            result = scaled.add(single);
            proof {
                let r = radix as nat;
                let d = value as nat;
                let next = data@.take(i + 1);
                assert(next.drop_last() =~= data@.take(i as int));
                assert(next.last() == character);
                assert(digits_value(next, r) == prev * r + d);
                assert(single@ =~= seq![value]);
                assert(Seq::<u8>::empty().push(value) =~= seq![value]);
                lemma_value_push(Seq::<u8>::empty(), value);
                lemma_pow256_step(0);
                assert(value_of(Seq::<u8>::empty()) == 0);
                assert(value_of(single@) == d);
                lemma_pow256_step(1);
                assert(d < 256);
                if prev == 0 {
                    lemma_value_zero(old_result);
                    assert(scaled@ =~= Seq::<u8>::empty());
                    assert(d % 256 == d);
                    assert(chunks_of(d / 256, 0) =~= Seq::<u8>::empty());
                    assert(chunks_of(d, 1) =~= seq![value]);
                    if d > 0 {
                        assert(bytes_of(d) =~= seq![value]) by {
                            assert(d / 256 == 0 && d % 256 == d);
                            assert(bytes_of(0) =~= Seq::<u8>::empty());
                        }
                    }
                } else {
                    lemma_bytes_of(prev);
                    let len = result@.len();
                    let n = bytes_of(prev).len();
                    lemma_pow256_step(n);
                    lemma_pow256_step((n - 1) as nat);
                    let w = prev * r;
                    assert(pow(256, (n - 1) as nat) <= w < pow(256, n + 1)) by (nonlinear_arith)
                        requires
                            pow(256, (n - 1) as nat) <= prev < pow(256, n),
                            2 <= r <= 16,
                            w == prev * r,
                            pow(256, n + 1) == 256 * pow(256, n),
                    ;
                    lemma_grown_is_bytes_of(w, n);
                    lemma_bytes_of(w);
                    let m = bytes_of(w).len();
                    lemma_pow256_step(m);
                    lemma_pow256_step((m - 1) as nat);
                    assert(pow(256, (m - 1) as nat) <= w + d < pow(256, m + 1)) by (nonlinear_arith)
                        requires
                            pow(256, (m - 1) as nat) <= w < pow(256, m),
                            d < 256,
                            pow(256, m + 1) == 256 * pow(256, m),
                            pow(256, m) >= 1,
                    ;
                    lemma_grown_is_bytes_of(w + d, m);
                    lemma_bytes_of(w + d);
                }
            }
            i += 1;
        }
        proof {
            assert(data@.take(length as int) =~= data@);
            lemma_bytes_of(digits_value(data@, radix as nat));
            lemma_value_zero(result@);
        }
        result
    }

    /// Returns the number written in the given base: no leading zero,
    /// upper-case letters for the digits from 10 on, and `"0"` for zero.
    pub fn to_string(&self, base: Base) -> (r: String)
        ensures
            r@ == render(self.value(), base.radix()),
    {
        if self.is_zero() {
            proof {
                reveal_strlit("0");
            }
            return String::from_str("0");
        }
        let radix = base.to_radix();
        let ghost n = self.value();
        let mut temp = BigInt::from_bytes(self.data.clone());
        assert(temp@ =~= self@);
        let mut digits: Vec<u8> = Vec::new();
        assert(render(n, radix as nat) =~= render(n, radix as nat) + reversed_digits(digits@));

        while !temp.is_zero()
            invariant
                radix as nat == base.radix(),
                2 <= radix <= 16,
                forall|j: int| 0 <= j < digits@.len() ==> digits@[j] < radix,
                render(n, radix as nat) == if temp.value() == 0 {
                    reversed_digits(digits@)
                } else {
                    render(temp.value(), radix as nat) + reversed_digits(digits@)
                },
            decreases temp.value(),
        {
            let ghost t = temp.value();
            let ghost before = digits@;
            let (quotient, remainder) = temp.divide_by_small(radix);
            digits.push(remainder);
            temp = quotient;
            proof {
                let q = t / radix as nat;
                assert(reversed_digits(digits@) =~= seq![digit_char(remainder as nat)]
                    + reversed_digits(before));
                if q == 0 {
                    assert(t % radix as nat == t) by (nonlinear_arith)
                        requires
                            t / radix as nat == 0,
                            radix > 0,
                    ;
                } else {
                    assert(t >= radix && q < t) by (nonlinear_arith)
                        requires
                            q == t / radix as nat,
                            q > 0,
                            radix >= 2,
                    ;
                    assert(render(t, radix as nat) + reversed_digits(before) =~= render(
                        q,
                        radix as nat,
                    ) + reversed_digits(digits@));
                }
            }
        }

        // The digits came least significant first: write them from the last.
        let table = "0123456789ABCDEF";
        proof {
            reveal_strlit("0123456789ABCDEF");
            assert(table@ =~= digit_chars());
        }
        let mut out = String::new();
        let mut k: usize = digits.len();
        while k > 0
            invariant
                k <= digits@.len(),
                table@ == digit_chars(),
                forall|j: int| 0 <= j < digits@.len() ==> digits@[j] < 16,
                out@ =~= reversed_digits(digits@).subrange(0, digits@.len() - k),
            decreases k,
        {
            k -= 1;
            let d = digits[k] as usize;
            let ghost before = out@;
            out.append(table.substring_char(d, d + 1));
            assert(out@ =~= reversed_digits(digits@).subrange(0, digits@.len() - k));
        }
        out
    }
    /// A listing of the stored chunks for diagnostics: their count and each
    /// chunk in decimal, as in `BigInt (2): [228, 8]`.
    pub fn debug_text(&self) -> (r: String)
        ensures
            r@ == "BigInt ("@ + render(self@.len() as nat, 10) + "): ["@ + chunk_list_text(self@)
                + "]"@,
    {
        let ghost length = self.data@.len();
        let mut length_chunks: Vec<u8> = Vec::new();
        let mut rest: usize = self.data.len();
        proof {
            lemma_pow256_step(0);
            assert(value_of(length_chunks@) == 0);
        }
        while rest > 0
            invariant
                value_of(length_chunks@) + rest * pow(256, length_chunks@.len()) == length,
            decreases rest,
        {
            let ghost before = length_chunks@;
            let ghost r0 = rest as nat;
            length_chunks.push((rest % 256) as u8);
            rest = rest / 256;
            proof {
                let p = pow(256, before.len());
                lemma_value_push(before, (r0 % 256) as u8);
                lemma_pow256_step(before.len());
                assert(((r0 % 256) as u8) as nat * p + rest * (256 * p) == r0 * p)
                    by (nonlinear_arith)
                    requires
                        rest == r0 / 256,
                ;
            }
        }
        let mut out = String::from_str("BigInt (");
        let count = BigInt::from_bytes(length_chunks).to_string(Base::Decimal);
        out.append(count.as_str());
        out.append("): [");
        let ghost head = out@;
        let mut i: usize = 0;
        assert(self@.take(0) =~= Seq::<u8>::empty());
        while i < self.data.len()
            invariant
                i <= self.data@.len(),
                out@ == head + chunk_list_text(self@.take(i as int)),
            decreases self.data@.len() - i,
        {
            let ghost before = out@;
            if i > 0 {
                out.append(", ");
            }
            let single = BigInt::from_bytes(vec![self.data[i]]);
            let chunk = single.to_string(Base::Decimal);
            out.append(chunk.as_str());
            proof {
                let b = self@[i as int];
                assert(single@ =~= seq![b]);
                let next = self@.take(i + 1);
                assert(next.drop_last() =~= self@.take(i as int));
                assert(seq![b] =~= Seq::<u8>::empty().push(b));
                lemma_value_push(Seq::<u8>::empty(), b);
                lemma_pow256_step(0);
                assert(value_of(Seq::<u8>::empty()) == 0);
                assert(chunk@ == render(b as nat, 10));
                assert(next.last() == b && next[0] == self@[0]);
                if i == 0 {
                    assert(self@.take(0) =~= Seq::<u8>::empty());
                    assert(out@ =~= head + chunk_list_text(next));
                } else {
                    assert(out@ =~= head + chunk_list_text(next));
                }
            }
            i += 1;
        }
        assert(self@.take(self@.len() as int) =~= self@);
        out.append("]");
        out
    }

    /// Add two values chunk by chunk with carry. The result has as many chunks
    /// as the longer operand, and one more when a carry remains.
    pub fn add(self, right: BigInt) -> (r: BigInt)
        ensures
            r@ == sum_chunks(self@, right@),
            r.value() == self.value() + right.value(),
    {
        let left_data = &self.data;
        let right_data = &right.data;
        let longest_number_length = if left_data.len() >= right_data.len() {
            left_data.len()
        } else {
            right_data.len()
        };

        let mut result: Vec<u8> = Vec::new();
        let mut carry: u8 = 0;
        let mut index: usize = 0;
        proof {
            lemma_prefix_step(left_data@, 0);
            lemma_prefix_step(right_data@, 0);
            lemma_pow256_step(0);
            assert(result@ =~= Seq::<u8>::empty());
        }
        while index < longest_number_length
            invariant
                index <= longest_number_length,
                longest_number_length == left_data@.len() || longest_number_length
                    == right_data@.len(),
                left_data@.len() <= longest_number_length,
                right_data@.len() <= longest_number_length,
                result@.len() == index,
                carry <= 1,
                value_of(result@) + carry * pow(256, index as nat) == prefix_value(
                    left_data@,
                    index as nat,
                ) + prefix_value(right_data@, index as nat),
            decreases longest_number_length - index,
        {
            let left: u16 = if index < left_data.len() {
                left_data[index] as u16
            } else {
                0
            };
            let right: u16 = if index < right_data.len() {
                right_data[index] as u16
            } else {
                0
            };
            let total = left + right + carry as u16;
            let ghost before = result@;
            let ghost c0 = carry as nat;
            result.push((total % 256) as u8);
            carry = (total / 256) as u8;
            proof {
                let i = index as nat;
                let p = pow(256, i);
                lemma_prefix_step(left_data@, i);
                lemma_prefix_step(right_data@, i);
                lemma_pow256_step(i);
                lemma_value_push(before, (total % 256) as u8);
                assert(left == chunk_at(left_data@, i) && right == chunk_at(right_data@, i));
                assert(((total % 256) as u8) as nat + 256 * (carry as nat) == total);
                assert(value_of(before) + ((total % 256) as u8) as nat * p + carry * (256 * p)
                    == value_of(before) + c0 * p + left * p + right * p) by (nonlinear_arith)
                    requires
                        ((total % 256) as u8) as nat + 256 * (carry as nat) == total,
                        total == left + right + c0,
                ;
            }
            index += 1;
        }
        proof {
            let n = longest_number_length as nat;
            lemma_prefix_step(left_data@, n);
            lemma_prefix_step(right_data@, n);
            lemma_value_bound(result@);
        }
        let ghost low = result@;
        if carry > 0 {
            result.push(carry);
            proof {
                lemma_value_push(low, carry);
            }
        }
        proof {
            lemma_chunks_of_value(result@);
        }
        BigInt::from_bytes(result)
    }
}

impl PartialEq for BigInt {
    /// Two values are equal when their chunk sequences are, length included,
    /// and when both hold zero in one of its two stored forms: no chunk, or a
    /// single zero chunk.
    fn eq(&self, other: &BigInt) -> (r: bool)
        ensures
            r == chunks_equal(self@, other@),
    {
        if self.data.len() <= 1 && other.data.len() <= 1 && self.is_zero() && other.is_zero() {
            return true;
        }
        if self.data.len() != other.data.len() {
            return false;
        }
        let mut i: usize = 0;
        while i < self.data.len()
            invariant
                i <= self.data@.len(),
                self.data@.len() == other.data@.len(),
                forall|j: int| 0 <= j < i ==> self.data@[j] == other.data@[j],
            decreases self.data@.len() - i,
        {
            if self.data[i] != other.data[i] {
                return false;
            }
            i += 1;
        }
        assert(self.data@ =~= other.data@);
        true
    }
}

impl vstd::std_specs::cmp::PartialEqSpecImpl for BigInt {
    open spec fn obeys_eq_spec() -> bool {
        true
    }

    open spec fn eq_spec(&self, other: &BigInt) -> bool {
        chunks_equal(self@, other@)
    }
}

impl core::ops::Add for BigInt {
    type Output = Self;

    /// `a + b` is `BigInt::add`.
    fn add(self, right: Self) -> (r: Self)
        ensures
            r@ == sum_chunks(self@, right@),
    {
        BigInt::add(self, right)
    }
}

/// The result of `+` is stated by the `ensures` of the impl above, over the
/// view. The trait's own spec form would need a spec-level `BigInt`, which
/// cannot be built around a `Vec`, so it is not used.
impl vstd::std_specs::ops::AddSpecImpl for BigInt {
    open spec fn obeys_add_spec() -> bool {
        false
    }

    open spec fn add_req(self, rhs: BigInt) -> bool {
        true
    }

    open spec fn add_spec(self, rhs: BigInt) -> BigInt {
        arbitrary()
    }
}

} // verus!
