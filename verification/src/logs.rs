//! Decoding of event-log payloads.
//!
//! The log-subscription task reads, from the front of each matching log's
//! payload, a 32-byte big-endian integer: the amount a transfer event
//! carries. The decoding is given here; the subscription itself is I/O and
//! lives outside the library.

use vstd::prelude::*;

verus! {

/// The value of a byte sequence read as a big-endian integer.
pub open spec fn be_value(s: Seq<u8>) -> nat
    decreases s.len(),
{
    if s.len() == 0 {
        0
    } else {
        be_value(s.drop_last()) * 256 + (s.last() as nat)
    }
}

/// 256 to the power n: the number of values of n bytes.
pub open spec fn pow256(n: nat) -> nat
    decreases n,
{
    if n == 0 {
        1
    } else {
        256 * pow256((n - 1) as nat)
    }
}

/// A big-endian reading of n bytes is below 256 to the n.
proof fn lemma_be_value_bound(s: Seq<u8>)
    ensures
        be_value(s) < pow256(s.len()),
    decreases s.len(),
{
    if s.len() > 0 {
        lemma_be_value_bound(s.drop_last());
    }
}

/// Powers of 256 do not decrease.
proof fn lemma_pow256_mono(a: nat, b: nat)
    requires
        a <= b,
    ensures
        pow256(a) <= pow256(b),
    decreases b,
{
    if a < b {
        lemma_pow256_mono(a, (b - 1) as nat);
    }
}

/// 256 to the 16 is 2 to the 128: sixteen bytes fill a 128-bit integer.
proof fn lemma_pow256_16()
    ensures
        pow256(16) == 0x1_0000_0000_0000_0000_0000_0000_0000_0000,
{
    reveal_with_fuel(pow256, 17);
}

/// Reading a concatenation big-endian: the front bytes are shifted past the
/// back bytes.
proof fn lemma_be_value_concat(s1: Seq<u8>, s2: Seq<u8>)
    ensures
        be_value(s1 + s2) == be_value(s1) * pow256(s2.len()) + be_value(s2),
    decreases s2.len(),
{
    if s2.len() == 0 {
        assert(s1 + s2 =~= s1);
        assert(be_value(s1) * 1 == be_value(s1)) by (nonlinear_arith);
    } else {
        let rest = s2.drop_last();
        assert((s1 + s2).drop_last() =~= s1 + rest);
        assert((s1 + s2).last() == s2.last());
        lemma_be_value_concat(s1, rest);
        let a = be_value(s1);
        let p = pow256(rest.len());
        assert(rest.len() == s2.len() - 1);
        assert(be_value(s1 + s2) == a * pow256(s2.len()) + be_value(s2)) by (nonlinear_arith)
            requires
                be_value(s1 + s2) == (a * p + be_value(rest)) * 256 + (s2.last() as nat),
                pow256(s2.len()) == 256 * p,
                be_value(s2) == be_value(rest) * 256 + (s2.last() as nat),
        {}
    }
}

/// A 256-bit unsigned integer, split into two big-endian 128-bit halves:
/// `hi` holds bytes 0..16, `lo` bytes 16..32.
#[derive(Clone, Copy, Debug, PartialEq, Eq, Structural)]
pub struct U256 {
    pub hi: u128,
    pub lo: u128,
}

impl U256 {
    /// The integer this value stands for.
    pub open spec fn value(self) -> nat {
        (self.hi as nat) * pow256(16) + (self.lo as nat)
    }
}

/// Reads the sixteen bytes of `data` from `start` as a big-endian integer.
fn be_u128(data: &Vec<u8>, start: usize) -> (r: u128)
    requires
        start + 16 <= data@.len(),
    ensures
        r as nat == be_value(data@.subrange(start as int, start as int + 16)),
{
    let mut acc: u128 = 0;
    let len = data.len();
    proof {
        assert(data@.subrange(start as int, start as int) =~= Seq::<u8>::empty());
    }
    for j in 0..16usize
        invariant
            start + 16 <= len,
            len == data@.len(),
            acc as nat == be_value(data@.subrange(start as int, start as int + j)),
    {
        proof {
            let read = data@.subrange(start as int, start as int + j);
            lemma_be_value_bound(read);
            lemma_pow256_mono(j as nat, 15);
            lemma_pow256_16();
            let next = data@.subrange(start as int, start as int + j + 1);
            assert(next.drop_last() =~= read);
            assert(next.last() == data@[start as int + j]);
        }
        acc = acc * 256 + data[start + j] as u128;
    }
    acc
}

/// Reads the 256-bit big-endian integer at the front of a log payload. There
/// is a value exactly when the payload holds at least 32 bytes; a shorter
/// payload gives none.
pub fn from_big_endian(data: &Vec<u8>) -> (r: Option<U256>)
    ensures
        r matches Some(v) ==> data@.len() >= 32 && v.value() == be_value(data@.subrange(0, 32)),
        r is None <==> data@.len() < 32,
{
    if data.len() < 32 {
        return None;
    }
    let hi = be_u128(data, 0);
    let lo = be_u128(data, 16);
    proof {
        let front = data@.subrange(0, 16);
        let back = data@.subrange(16, 32);
        assert(front + back =~= data@.subrange(0, 32));
        lemma_be_value_concat(front, back);
    }
    Some(U256 { hi, lo })
}

} // verus!
