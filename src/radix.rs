//! Number bases, the digit alphabet, and the digit strings of a number.

use vstd::prelude::*;

verus! {

/// A base in which numbers are read and written.
#[derive(Clone, Copy, Debug)]
pub enum Base {
    Binary,
    Octal,
    Decimal,
    Hexadecimal,
}

impl Base {
    /// The radix of the base: 2, 8, 10 or 16.
    pub open spec fn radix(self) -> nat {
        match self {
            Base::Binary => 2,
            Base::Octal => 8,
            Base::Decimal => 10,
            Base::Hexadecimal => 16,
        }
    }

    /// Returns the radix of the base.
    pub fn to_radix(&self) -> (r: u8)
        ensures
            r as nat == self.radix(),
            2 <= r <= 16,
    {
        match self {
            Base::Binary => 2,
            Base::Octal => 8,
            Base::Decimal => 10,
            Base::Hexadecimal => 16,
        }
    }
}

/// The value of a digit character: `'0'..='9'` are 0 to 9, and letters of
/// either case are 10 to 35. Other characters have none.
pub open spec fn digit_of(c: char) -> Option<nat> {
    let k = c as u32;
    if 48 <= k <= 57 {
        Some((k - 48) as nat)
    } else if 65 <= k <= 90 {
        Some((k - 55) as nat)
    } else if 97 <= k <= 122 {
        Some((k - 87) as nat)
    } else {
        None
    }
}

/// `c` is a digit whose value is below `radix`.
pub open spec fn is_digit_in(c: char, radix: nat) -> bool {
    match digit_of(c) {
        Some(d) => d < radix,
        None => false,
    }
}

/// Every character of `s` is a digit below `radix`.
pub open spec fn is_digit_string(s: Seq<char>, radix: nat) -> bool {
    forall|i: int| 0 <= i < s.len() ==> is_digit_in(#[trigger] s[i], radix)
}

/// The value of a digit character, zero for other characters.
pub open spec fn digit_num(c: char) -> nat {
    match digit_of(c) {
        Some(d) => d,
        None => 0,
    }
}

/// The number that the digit string `s` stands for in `radix`, most
/// significant digit first; the empty string stands for zero.
pub open spec fn digits_value(s: Seq<char>, radix: nat) -> nat
    decreases s.len(),
{
    if s.len() == 0 {
        0
    } else {
        digits_value(s.drop_last(), radix) * radix + digit_num(s.last())
    }
}

/// The characters written for the digit values 0 to 15.
pub open spec fn digit_chars() -> Seq<char> {
    seq!['0', '1', '2', '3', '4', '5', '6', '7', '8', '9', 'A', 'B', 'C', 'D', 'E', 'F']
}

/// The character written for digit value `d`: `'0'..='9'`, then upper-case
/// letters.
pub open spec fn digit_char(d: nat) -> char {
    digit_chars()[d as int]
}

/// The digit string of `n` in `radix`: no leading zero, and `"0"` for zero.
pub open spec fn render(n: nat, radix: nat) -> Seq<char>
    decreases n,
{
    if n < radix || radix < 2 {
        seq![digit_char(n)]
    } else {
        proof {
            assert(n / radix < n) by (nonlinear_arith)
                requires
                    n >= radix >= 2,
            ;
        }
        render(n / radix, radix).push(digit_char(n % radix))
    }
}

/// Reading back the character written for a digit gives the digit.
pub proof fn lemma_digit_char(d: nat)
    requires
        d < 16,
    ensures
        digit_of(digit_char(d)) == Some(d),
{
    let c = digit_chars();
    assert(d == 0 || d == 1 || d == 2 || d == 3 || d == 4 || d == 5 || d == 6 || d == 7 || d == 8
        || d == 9 || d == 10 || d == 11 || d == 12 || d == 13 || d == 14 || d == 15);
    assert(c[0] == '0' && c[1] == '1' && c[2] == '2' && c[3] == '3' && c[4] == '4' && c[5] == '5'
        && c[6] == '6' && c[7] == '7' && c[8] == '8' && c[9] == '9');
    assert(c[10] == 'A' && c[11] == 'B' && c[12] == 'C' && c[13] == 'D' && c[14] == 'E' && c[15]
        == 'F');
}

/// The digit string `s` written with the characters that `render` uses:
/// upper-case letters.
pub open spec fn upper_digits(s: Seq<char>) -> Seq<char> {
    s.map_values(|c: char| digit_char(digit_num(c)))
}

/// `s` without its leading `'0'` characters.
pub open spec fn strip_leading_zeros(s: Seq<char>) -> Seq<char>
    decreases s.len(),
{
    if s.len() > 0 && s[0] == '0' {
        strip_leading_zeros(s.drop_first())
    } else {
        s
    }
}

/// The canonical form of a digit string: upper-case letters, no leading
/// zero, and `"0"` where nothing else is left.
pub open spec fn canonical_digits(s: Seq<char>) -> Seq<char> {
    let t = strip_leading_zeros(upper_digits(s));
    if t.len() == 0 {
        seq!['0']
    } else {
        t
    }
}

/// A digit string in canonical form: not empty, no leading zero unless it is
/// `"0"`, and written with upper-case letters.
pub open spec fn is_canonical(s: Seq<char>, radix: nat) -> bool {
    &&& is_digit_string(s, radix)
    &&& s.len() > 0
    &&& (s.len() == 1 || s[0] != '0')
    &&& forall|i: int| 0 <= i < s.len() ==> digit_char(digit_num(#[trigger] s[i])) == s[i]
}

/// The string that `render` writes is a canonical digit string of the radix,
/// and it reads back as the number.
pub proof fn lemma_render_reads_back(n: nat, radix: nat)
    requires
        2 <= radix <= 16,
    ensures
        is_canonical(render(n, radix), radix),
        digits_value(render(n, radix), radix) == n,
    decreases n,
{
    let s = render(n, radix);
    if n < radix {
        lemma_digit_char(n);
        assert(s.drop_last() =~= Seq::<char>::empty());
        assert(digits_value(Seq::<char>::empty(), radix) == 0);
        assert(digit_num(s.last()) == n);
    } else {
        let q = n / radix;
        let d = n % radix;
        assert(q < n && d < radix && q > 0 && n == q * radix + d) by (nonlinear_arith)
            requires
                n >= radix >= 2,
                q == n / radix,
                d == n % radix,
        ;
        lemma_render_reads_back(q, radix);
        lemma_digit_char(d);
        let p = render(q, radix);
        assert(s.drop_last() =~= p);
        assert(s[0] == p[0]);
        assert forall|i: int| 0 <= i < s.len() implies is_digit_in(#[trigger] s[i], radix)
            && digit_char(digit_num(s[i])) == s[i] by {
            if i < p.len() {
                assert(s[i] == p[i]);
            }
        }
        if p.len() == 1 && p[0] == '0' {
            assert(p =~= seq!['0']);
            assert(p.drop_last() =~= Seq::<char>::empty());
            assert(digits_value(p.drop_last(), radix) == 0);
            lemma_digit_char(0);
            assert(digit_chars()[0] == '0');
            assert(digit_num(p.last()) == 0);
            assert(digits_value(p, radix) == digits_value(p.drop_last(), radix) * radix + digit_num(
                p.last(),
            ));
            assert(0 * radix == 0);
        }
    }
}

/// A canonical digit string is what `render` writes for its number.
pub proof fn lemma_canonical_renders(s: Seq<char>, radix: nat)
    requires
        2 <= radix <= 16,
        is_canonical(s, radix),
    ensures
        render(digits_value(s, radix), radix) == s,
    decreases s.len(),
{
    let d = digit_num(s.last());
    assert(is_digit_in(s[s.len() - 1], radix));
    assert(digit_char(digit_num(s[s.len() - 1])) == s[s.len() - 1]);
    if s.len() == 1 {
        assert(s.drop_last() =~= Seq::<char>::empty());
        assert(render(d, radix) =~= s);
    } else {
        let p = s.drop_last();
        assert(p[0] == s[0]);
        assert forall|i: int| 0 <= i < p.len() implies is_digit_in(#[trigger] p[i], radix)
            && digit_char(digit_num(p[i])) == p[i] by {
            assert(p[i] == s[i]);
        }
        lemma_canonical_renders(p, radix);
        let v = digits_value(p, radix);
        if v == 0 {
            lemma_digit_char(0);
            assert(render(0, radix)[0] == '0');
        }
        let n = v * radix + d;
        assert(n >= radix && n / radix == v && n % radix == d) by (nonlinear_arith)
            requires
                v > 0,
                d < radix,
                n == v * radix + d,
        ;
        assert(render(n, radix) =~= s);
    }
}

/// A leading `'0'` does not change the number.
pub proof fn lemma_leading_zero(u: Seq<char>, radix: nat)
    ensures
        digits_value(seq!['0'] + u, radix) == digits_value(u, radix),
    decreases u.len(),
{
    let t = seq!['0'] + u;
    lemma_digit_char(0);
    assert(digit_chars()[0] == '0');
    if u.len() == 0 {
        assert(t.drop_last() =~= Seq::<char>::empty());
        assert(digits_value(t, radix) == digits_value(t.drop_last(), radix) * radix + digit_num(
            t.last(),
        ));
        assert(0 * radix == 0);
    } else {
        assert(t.drop_last() =~= seq!['0'] + u.drop_last());
        lemma_leading_zero(u.drop_last(), radix);
    }
}

/// Dropping leading zeros keeps the number and what each character is, and
/// leaves no leading zero.
pub proof fn lemma_strip_leading_zeros(t: Seq<char>, radix: nat)
    requires
        forall|i: int|
            0 <= i < t.len() ==> is_digit_in(#[trigger] t[i], radix) && digit_char(digit_num(t[i]))
                == t[i],
    ensures
        digits_value(strip_leading_zeros(t), radix) == digits_value(t, radix),
        strip_leading_zeros(t).len() == 0 || strip_leading_zeros(t)[0] != '0',
        forall|i: int|
            0 <= i < strip_leading_zeros(t).len() ==> is_digit_in(
                #[trigger] strip_leading_zeros(t)[i],
                radix,
            ) && digit_char(digit_num(strip_leading_zeros(t)[i])) == strip_leading_zeros(t)[i],
    decreases t.len(),
{
    if t.len() > 0 && t[0] == '0' {
        let u = t.drop_first();
        assert forall|i: int| 0 <= i < u.len() implies is_digit_in(#[trigger] u[i], radix)
            && digit_char(digit_num(u[i])) == u[i] by {
            assert(u[i] == t[i + 1]);
        }
        lemma_strip_leading_zeros(u, radix);
        assert(t =~= seq!['0'] + u);
        lemma_leading_zero(u, radix);
    }
}

/// Written back, a parsed digit string comes out in canonical form.
pub proof fn lemma_render_canonical(s: Seq<char>, radix: nat)
    requires
        2 <= radix <= 16,
        is_digit_string(s, radix),
    ensures
        render(digits_value(s, radix), radix) == canonical_digits(s),
{
    let up = upper_digits(s);
    assert forall|i: int| 0 <= i < up.len() implies is_digit_in(#[trigger] up[i], radix)
        && digit_char(digit_num(up[i])) == up[i] by {
        assert(is_digit_in(s[i], radix));
        lemma_digit_char(digit_num(s[i]));
    }
    lemma_upper_digits(s, radix);
    let t = strip_leading_zeros(up);
    lemma_strip_leading_zeros(up, radix);
    if t.len() == 0 {
        assert(digits_value(t, radix) == 0);
        lemma_digit_char(0);
        assert(render(0, radix) =~= seq!['0']);
    } else {
        lemma_canonical_renders(t, radix);
    }
}

/// Writing the digits with upper-case letters keeps the number.
pub proof fn lemma_upper_digits(s: Seq<char>, radix: nat)
    requires
        radix <= 16,
        is_digit_string(s, radix),
    ensures
        digits_value(upper_digits(s), radix) == digits_value(s, radix),
    decreases s.len(),
{
    if s.len() > 0 {
        let p = s.drop_last();
        assert(upper_digits(s).drop_last() =~= upper_digits(p));
        assert(is_digit_in(s[s.len() - 1], radix));
        lemma_digit_char(digit_num(s.last()));
        assert forall|i: int| 0 <= i < p.len() implies is_digit_in(#[trigger] p[i], radix) by {
            assert(p[i] == s[i]);
        }
        lemma_upper_digits(p, radix);
    }
}

} // verus!
