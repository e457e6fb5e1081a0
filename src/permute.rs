use vstd::prelude::*;

use crate::bits::{is_pow2, lemma_pow2_injective, lemma_rev_bound, lemma_rev_involution, log2, pow2, reverse_bits, rev};

verus! {

/// The number of bits of the indices below a power of two `n`.
pub open spec fn bit_count(n: nat) -> nat {
    choose|k: nat| pow2(k) == n
}

/// The index whose content lands at `i` after reordering `n` elements.
pub open spec fn reversed_index(i: nat, n: nat) -> nat {
    rev(i, bit_count(n))
}

pub proof fn lemma_bit_count(n: nat, k: nat)
    requires
        pow2(k) == n,
    ensures
        bit_count(n) == k,
{
    let c = bit_count(n);
    assert(pow2(c) == n);
    lemma_pow2_injective(c, k);
}

/// Reordering of a sequence of `n` elements into bit-reversed order.
pub open spec fn bit_reversed<T>(s: Seq<T>) -> Seq<T> {
    Seq::new(s.len(), |i: int| s[reversed_index(i as nat, s.len()) as int])
}

/// Puts `data` into bit-reversed order in place: element `i` moves to the
/// index whose binary digits are those of `i` reversed.
pub fn rearrange<T: Copy>(data: &mut Vec<T>)
    requires
        is_pow2(old(data)@.len()),
    ensures
        final(data)@ == bit_reversed(old(data)@),
{
    let n = data.len();
    let bits = log2(n);
    let ghost orig = data@;
    proof {
        lemma_bit_count(n as nat, bits as nat);
    }
    let mut i: usize = 0;
    while i < n
        invariant
            n == data@.len() == orig.len(),
            pow2(bits as nat) == n,
            bit_count(n as nat) == bits,
            i <= n,
            forall|x: int|
                0 <= x < n ==> #[trigger] data@[x] == if x < i || rev(x as nat, bits as nat) < i {
                    orig[rev(x as nat, bits as nat) as int]
                } else {
                    orig[x]
                },
        decreases n - i,
    {
        let j = reverse_bits(i, bits);
        proof {
            lemma_rev_bound(i as nat, bits as nat);
            lemma_rev_involution(i as nat, bits as nat);
        }
        if i < j {
            let a = data[i];
            let c = data[j];
            data.set(i, c);
            data.set(j, a);
        }
        proof {
            assert forall|x: int| 0 <= x < n implies #[trigger] data@[x] == if x < i + 1 || rev(
                x as nat,
                bits as nat,
            ) < i + 1 {
                orig[rev(x as nat, bits as nat) as int]
            } else {
                orig[x]
            } by {
                lemma_rev_involution(x as nat, bits as nat);
                lemma_rev_bound(x as nat, bits as nat);
            }
        }
        i = i + 1;
    }
    assert(data@ =~= bit_reversed(orig));
}

} // verus!
