//! Big-endian numbers.
use vstd::prelude::*;

verus! {

/// Value of a big-endian byte sequence.
pub open spec fn be_value(b: Seq<u8>) -> nat
    decreases b.len(),
{
    if b.len() == 0 {
        0
    } else {
        be_value(b.drop_last()) * 256 + b.last() as nat
    }
}

/// 256 to the power `n`.
pub open spec fn pow256(n: nat) -> nat
    decreases n,
{
    if n == 0 {
        1
    } else {
        256 * pow256((n - 1) as nat)
    }
}

/// A big-endian value of `n` bytes is below 256 to the power `n`.
pub proof fn lemma_be_value_bound(b: Seq<u8>)
    ensures
        be_value(b) < pow256(b.len()),
    decreases b.len(),
{
    if b.len() > 0 {
        lemma_be_value_bound(b.drop_last());
        assert(be_value(b.drop_last()) + 1 <= pow256((b.len() - 1) as nat));
        assert((be_value(b.drop_last()) + 1) * 256 <= pow256((b.len() - 1) as nat) * 256)
            by (nonlinear_arith)
            requires
                be_value(b.drop_last()) + 1 <= pow256((b.len() - 1) as nat),
        ;
    }
}

/// Big-endian value of `b`, which holds at most eight bytes.
pub fn be_to_u64(b: &Vec<u8>) -> (r: u64)
    requires
        b@.len() <= 8,
    ensures
        r as nat == be_value(b@),
{
    let mut acc: u64 = 0;
    let mut i: usize = 0;
    while i < b.len()
        invariant
            i <= b@.len() <= 8,
            acc as nat == be_value(b@.subrange(0, i as int)),
        decreases b@.len() - i,
    {
        proof {
            let p = b@.subrange(0, i as int);
            lemma_be_value_bound(p);
            assert(pow256(i as nat) <= pow256(7)) by {
                lemma_pow256_mono(i as nat, 7);
            }
            reveal_with_fuel(pow256, 8);
            assert(pow256(7) == 0x100000000000000);
            let q = b@.subrange(0, i + 1);
            assert(q.drop_last() =~= p);
        }
        acc = acc * 256 + b[i] as u64;
        i += 1;
    }
    assert(b@.subrange(0, i as int) =~= b@);
    acc
}

/// Powers of 256 grow with the exponent.
pub proof fn lemma_pow256_mono(a: nat, b: nat)
    requires
        a <= b,
    ensures
        pow256(a) <= pow256(b),
    decreases b,
{
    if a < b {
        lemma_pow256_mono(a, (b - 1) as nat);
    }
}

} // verus!
