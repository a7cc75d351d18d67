//! Folding a ring into its digest.
use vstd::prelude::*;

verus! {

/// The bitwise XOR of all bytes of `s`; zero for no bytes.
pub open spec fn xor_fold(s: Seq<u8>) -> u8
    decreases s.len(),
{
    if s.len() == 0 {
        0
    } else {
        xor_fold(s.drop_last()) ^ s.last()
    }
}

/// Block `i` of `s`: bytes `16 * i` up to `16 * i + 16`, or to the end of `s`.
pub open spec fn block(s: Seq<u8>, i: int) -> Seq<u8> {
    s.subrange(
        16 * i,
        if 16 * i + 16 <= s.len() {
            16 * i + 16
        } else {
            s.len() as int
        },
    )
}

/// The XOR of each block of 16 bytes of `s`, in order; a shorter last block
/// counts as a block.
pub open spec fn dense_digest(s: Seq<u8>) -> Seq<u8> {
    Seq::new(((s.len() + 15) / 16) as nat, |i: int| xor_fold(block(s, i)))
}

fn xor_it(v: &[u8]) -> (r: u8)
    ensures
        r == xor_fold(v@),
{
    let mut acc: u8 = 0;
    let mut i: usize = 0;
    while i < v.len()
        invariant
            i <= v@.len(),
            acc == xor_fold(v@.take(i as int)),
        decreases v@.len() - i,
    {
        assert(v@.take(i as int + 1).drop_last() =~= v@.take(i as int));
        acc = acc ^ v[i];
        i = i + 1;
    }
    assert(v@.take(i as int) =~= v@);
    acc
}

/// The XOR of each consecutive block of 16 bytes of `v`; the last block may
/// be shorter.
pub fn dense_hash(v: &[u8]) -> (r: Vec<u8>)
    ensures
        r@ == dense_digest(v@),
        r@.len() == (v@.len() + 15) / 16,
        v@.len() % 16 == 0 ==> r@.len() == v@.len() / 16,
{
    let n = v.len();
    let count: usize = n / 16 + if n % 16 == 0 {
        0
    } else {
        1
    };
    let mut r: Vec<u8> = Vec::new();
    let mut k: usize = 0;
    while k < count
        invariant
            n == v@.len(),
            count == (n + 15) / 16,
            k <= count,
            r@.len() == k,
            forall|j: int| 0 <= j < k ==> #[trigger] r@[j] == xor_fold(block(v@, j)),
        decreases count - k,
    {
        let start = 16 * k;
        let end = if n - start > 16 {
            start + 16
        } else {
            n
        };
        r.push(xor_it(&v[start..end]));
        k = k + 1;
    }
    assert(r@ =~= dense_digest(v@));
    r
}

} // verus!
