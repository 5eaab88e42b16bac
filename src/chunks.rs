//! The mathematical model of a chunk sequence: the number it stands for, and
//! the chunk sequences that stand for a given number.

use vstd::arithmetic::power::*;
use vstd::prelude::*;

verus! {

/// The number that a little-endian sequence of byte chunks stands for:
/// the sum of `s[i] * 256^i`.
pub open spec fn value_of(s: Seq<u8>) -> nat
    decreases s.len(),
{
    if s.len() == 0 {
        0
    } else {
        s[0] as nat + 256 * value_of(s.drop_first())
    }
}

/// The `len` low chunks of `n`, least significant first.
pub open spec fn chunks_of(n: nat, len: nat) -> Seq<u8>
    decreases len,
{
    if len == 0 {
        seq![]
    } else {
        seq![(n % 256) as u8] + chunks_of(n / 256, (len - 1) as nat)
    }
}

/// The shortest chunk sequence of `n`: empty for zero, otherwise without a
/// zero chunk on top.
pub open spec fn bytes_of(n: nat) -> Seq<u8>
    decreases n,
{
    if n == 0 {
        seq![]
    } else {
        seq![(n % 256) as u8] + bytes_of(n / 256)
    }
}

/// A sequence without a zero chunk in its most significant position.
pub open spec fn is_trimmed(s: Seq<u8>) -> bool {
    s.len() == 0 || s.last() != 0
}

/// Two chunk sequences that compare equal: the same chunks, length included,
/// or the two stored forms of zero, no chunk and a single zero chunk.
pub open spec fn chunks_equal(a: Seq<u8>, b: Seq<u8>) -> bool {
    a == b || (a.len() <= 1 && b.len() <= 1 && value_of(a) == 0 && value_of(b) == 0)
}

/// The length of a result that holds `n` and has at least `len` chunks, where
/// `n` needs at most one chunk more than `len`.
pub open spec fn grown_len(n: nat, len: nat) -> nat {
    if n < pow(256, len) {
        len
    } else {
        len + 1
    }
}

/// The chunks of `a + b` as addition produces them: as many as the longer
/// operand has, and one more when the sum needs it.
pub open spec fn sum_chunks(a: Seq<u8>, b: Seq<u8>) -> Seq<u8> {
    let n = value_of(a) + value_of(b);
    let len = if a.len() >= b.len() {
        a.len()
    } else {
        b.len()
    };
    chunks_of(n, grown_len(n, len))
}

/// The number that the chunks of `s` below position `i` stand for.
pub open spec fn prefix_value(s: Seq<u8>, i: nat) -> nat {
    value_of(s.take(if i <= s.len() { i as int } else { s.len() as int }))
}

/// The chunk of `s` at position `i`, zero past its end.
pub open spec fn chunk_at(s: Seq<u8>, i: nat) -> nat {
    if i < s.len() {
        s[i as int] as nat
    } else {
        0
    }
}

/// One more position of a prefix adds its chunk at its weight.
pub proof fn lemma_prefix_step(s: Seq<u8>, i: nat)
    ensures
        prefix_value(s, i + 1) == prefix_value(s, i) + chunk_at(s, i) * pow(256, i),
        prefix_value(s, 0) == 0,
        i >= s.len() ==> prefix_value(s, i) == value_of(s),
{
    assert(s.take(0) =~= Seq::<u8>::empty());
    assert(s.take(s.len() as int) =~= s);
    if i < s.len() {
        assert(s.take(i + 1 as int) =~= s.take(i as int).push(s[i as int]));
        lemma_value_push(s.take(i as int), s[i as int]);
        assert(prefix_value(s, i + 1) == value_of(s.take(i + 1 as int)));
        assert(prefix_value(s, i) == value_of(s.take(i as int)));
        assert(chunk_at(s, i) == s[i as int]);
    } else {
        assert(prefix_value(s, i + 1) == prefix_value(s, i));
        assert(chunk_at(s, i) * pow(256, i) == 0);
    }
}

/// Each power of 256 is positive and 256 times the one before.
pub proof fn lemma_pow256_step(e: nat)
    ensures
        pow(256, e + 1) == 256 * pow(256, e),
        pow(256, e) > 0,
        pow(256, 0) == 1,
{
    reveal(pow);
    lemma_pow_positive(256, e);
    assert(((e + 1) as nat - 1) as nat == e);
}

/// Appending a chunk on top adds it at the weight of its position.
pub proof fn lemma_value_push(s: Seq<u8>, x: u8)
    ensures
        value_of(s.push(x)) == value_of(s) + x * pow(256, s.len()),
    decreases s.len(),
{
    lemma_pow256_step(s.len());
    if s.len() == 0 {
        assert(s.push(x).drop_first() =~= Seq::<u8>::empty());
        assert(value_of(Seq::<u8>::empty()) == 0);
        assert(value_of(s) == 0);
    } else {
        let t = s.drop_first();
        assert(s.push(x).drop_first() =~= t.push(x));
        lemma_value_push(t, x);
        lemma_pow256_step(t.len());
        let p = pow(256, t.len());
        assert(s.push(x)[0] == s[0]);
        assert(256 * (value_of(t) + x * p) == 256 * value_of(t) + x * (256 * p))
            by (nonlinear_arith);
    }
}

/// A sequence of `len` chunks stands for a number below `256^len`.
pub proof fn lemma_value_bound(s: Seq<u8>)
    ensures
        value_of(s) < pow(256, s.len()),
    decreases s.len(),
{
    lemma_pow256_step(s.len());
    if s.len() > 0 {
        let t = s.drop_first();
        lemma_value_bound(t);
        lemma_pow256_step(t.len());
        assert(s[0] as nat + 256 * value_of(t) < 256 * pow(256, t.len())) by (nonlinear_arith)
            requires
                s[0] < 256,
                value_of(t) < pow(256, t.len()),
        ;
    }
}

/// A sequence stands for zero exactly when every chunk is zero.
pub proof fn lemma_value_zero(s: Seq<u8>)
    ensures
        value_of(s) == 0 <==> forall|i: int| 0 <= i < s.len() ==> s[i] == 0,
    decreases s.len(),
{
    if s.len() > 0 {
        let t = s.drop_first();
        lemma_value_zero(t);
        if value_of(s) == 0 {
            assert forall|i: int| 0 <= i < s.len() implies s[i] == 0 by {
                if i > 0 {
                    assert(s[i] == t[i - 1]);
                }
            }
        }
        if forall|i: int| 0 <= i < s.len() ==> s[i] == 0 {
            assert forall|i: int| 0 <= i < t.len() implies t[i] == 0 by {
                assert(t[i] == s[i + 1]);
            }
        }
    }
}

/// Reading a sequence back at its own length gives the sequence.
pub proof fn lemma_chunks_of_value(s: Seq<u8>)
    ensures
        chunks_of(value_of(s), s.len()) == s,
    decreases s.len(),
{
    if s.len() > 0 {
        let t = s.drop_first();
        lemma_chunks_of_value(t);
        let n = value_of(s);
        assert(n % 256 == s[0] as nat && n / 256 == value_of(t)) by (nonlinear_arith)
            requires
                n == s[0] as nat + 256 * value_of(t),
                s[0] < 256,
        ;
        assert(chunks_of(n, s.len()) =~= s);
    } else {
        assert(chunks_of(value_of(s), 0) =~= s);
    }
}

/// `chunks_of` keeps the length it is given and the value, when the value fits.
pub proof fn lemma_chunks_of_len(n: nat, len: nat)
    ensures
        chunks_of(n, len).len() == len,
        n < pow(256, len) ==> value_of(chunks_of(n, len)) == n,
    decreases len,
{
    lemma_pow256_step((len - 1) as nat);
    if len > 0 {
        let m = (len - 1) as nat;
        lemma_chunks_of_len(n / 256, m);
        let c = chunks_of(n, len);
        assert(c.drop_first() =~= chunks_of(n / 256, m));
        if n < pow(256, len) {
            assert(n / 256 < pow(256, m) && (n % 256) as u8 as nat + 256 * (n / 256) == n)
                by (nonlinear_arith)
                requires
                    n < 256 * pow(256, m),
            ;
        }
    }
}

/// `bytes_of(n)` stands for `n`, has no zero chunk on top, and its length is
/// the number of chunks that `n` needs.
pub proof fn lemma_bytes_of(n: nat)
    ensures
        value_of(bytes_of(n)) == n,
        is_trimmed(bytes_of(n)),
        n == 0 <==> bytes_of(n).len() == 0,
        n > 0 ==> pow(256, (bytes_of(n).len() - 1) as nat) <= n,
        n < pow(256, bytes_of(n).len()),
    decreases n,
{
    let b = bytes_of(n);
    lemma_pow256_step(0);
    if n > 0 {
        let m = n / 256;
        lemma_bytes_of(m);
        let c = bytes_of(m);
        assert(b.drop_first() =~= c);
        assert((n % 256) as u8 as nat + 256 * m == n && m < n) by (nonlinear_arith)
            requires
                n > 0,
                m == n / 256,
        ;
        lemma_pow256_step(c.len());
        if m > 0 {
            lemma_pow256_step((c.len() - 1) as nat);
            assert(pow(256, (c.len() - 1) as nat) * 256 <= n) by (nonlinear_arith)
                requires
                    pow(256, (c.len() - 1) as nat) <= m,
                    m == n / 256,
            ;
            assert(b.last() == c.last());
        } else {
            assert(n % 256 == n);
        }
        assert(n < 256 * pow(256, c.len())) by (nonlinear_arith)
            requires
                m < pow(256, c.len()),
                m == n / 256,
        ;
    }
}

/// A sequence without a zero chunk on top is the shortest one of its number.
pub proof fn lemma_trimmed_is_bytes_of(s: Seq<u8>)
    requires
        is_trimmed(s),
    ensures
        s == bytes_of(value_of(s)),
    decreases s.len(),
{
    if s.len() > 0 {
        let t = s.drop_first();
        let n = value_of(s);
        lemma_value_zero(s);
        assert(s[s.len() - 1] != 0);
        if t.len() > 0 {
            assert(t.last() == s.last());
        }
        lemma_trimmed_is_bytes_of(t);
        assert(n % 256 == s[0] as nat && n / 256 == value_of(t)) by (nonlinear_arith)
            requires
                n == s[0] as nat + 256 * value_of(t),
                s[0] < 256,
        ;
        assert(bytes_of(n) =~= s);
    } else {
        assert(bytes_of(0) =~= s);
    }
}

/// The `len` low chunks of a number that needs exactly `len` chunks are its
/// shortest chunk sequence.
pub proof fn lemma_chunks_of_exact(n: nat, len: nat)
    requires
        len > 0,
        pow(256, (len - 1) as nat) <= n < pow(256, len),
    ensures
        chunks_of(n, len) == bytes_of(n),
{
    lemma_chunks_of_len(n, len);
    let c = chunks_of(n, len);
    lemma_pow256_step((len - 1) as nat);
    assert(c.last() != 0) by {
        if c.last() == 0 {
            let low = c.drop_last();
            assert(c =~= low.push(0));
            lemma_value_push(low, 0);
            lemma_value_bound(low);
        }
    }
    lemma_trimmed_is_bytes_of(c);
}

/// A number that needs `len` or `len + 1` chunks fills a grown result of
/// `len` chunks with no zero chunk on top.
pub proof fn lemma_grown_is_bytes_of(n: nat, len: nat)
    requires
        len > 0,
        pow(256, (len - 1) as nat) <= n < pow(256, len + 1),
    ensures
        chunks_of(n, grown_len(n, len)) == bytes_of(n),
{
    if n < pow(256, len) {
        lemma_chunks_of_exact(n, len);
    } else {
        assert((len + 1 - 1) as nat == len);
        lemma_chunks_of_exact(n, len + 1);
    }
}

} // verus!
