//! Reversal of a circular segment of a byte ring.
use vstd::arithmetic::div_mod::{lemma_mod_multiples_vanish, lemma_small_mod};
use vstd::prelude::*;
use vstd::seq_lib::{to_multiset_contains, to_multiset_update};

verus! {

/// The end of the segment that starts at `from % n` and ends at `to % n`,
/// shifted by `n` when the segment wraps past the end of the ring, so that
/// `segment_end(n, from, to) - from % n + 1` is the segment's length.
pub open spec fn segment_end(n: int, from: int, to: int) -> int {
    if to % n < from % n {
        to % n + n
    } else {
        to % n
    }
}

/// `s` with the circular segment from `from` to `to` (both taken modulo the
/// length of `s`, inclusive) reversed: the element `d` steps after the start
/// of the segment receives the element `d` steps before its end.
pub open spec fn reverse_segment(s: Seq<u8>, from: int, to: int) -> Seq<u8> {
    let n = s.len() as int;
    let f = from % n;
    let t = segment_end(n, from, to);
    Seq::new(
        s.len(),
        |k: int|
            if (k - f) % n <= t - f {
                s[(t - (k - f) % n) % n]
            } else {
                s[k]
            },
    )
}

/// Stepping `d` places forward from `f` and measuring the distance back to
/// `f` gives `d` again.
proof fn lemma_offset_round_trip(f: int, d: int, n: int)
    requires
        0 <= f < n,
        0 <= d < n,
    ensures
        ((f + d) % n - f) % n == d,
{
    lemma_small_mod(d as nat, n as nat);
    if f + d < n {
        lemma_small_mod((f + d) as nat, n as nat);
    } else {
        lemma_small_mod((f + d - n) as nat, n as nat);
        lemma_mod_multiples_vanish(1, f + d - n, n);
        lemma_mod_multiples_vanish(1, d - n, n);
    }
}

/// Every index of the ring is reached from `f` by stepping its offset.
proof fn lemma_offset_covers(f: int, k: int, n: int)
    requires
        0 <= f < n,
        0 <= k < n,
    ensures
        0 <= (k - f) % n < n,
        (f + (k - f) % n) % n == k,
{
    lemma_small_mod(k as nat, n as nat);
    if k >= f {
        lemma_small_mod((k - f) as nat, n as nat);
    } else {
        lemma_small_mod((k - f + n) as nat, n as nat);
        lemma_mod_multiples_vanish(1, k - f, n);
        lemma_mod_multiples_vanish(1, k, n);
    }
}

/// `(a + b) % n`, computed without leaving the range of `usize`.
pub fn add_mod(a: usize, b: usize, n: usize) -> (r: usize)
    requires
        a < n,
        b < n,
    ensures
        r == (a + b) % (n as int),
{
    if a >= n - b {
        proof {
            lemma_small_mod((a + b - n) as nat, n as nat);
            lemma_mod_multiples_vanish(1, (a + b - n) as int, n as int);
        }
        a - (n - b)
    } else {
        proof {
            lemma_small_mod((a + b) as nat, n as nat);
        }
        a + b
    }
}

/// Reverses, in place, the circular segment of `data` that runs forward from
/// index `from % len` to index `to % len` inclusive, wrapping past the end.
pub fn swap_slice(data: &mut [u8], from: usize, to: usize)
    requires
        old(data)@.len() > 0,
    ensures
        final(data)@ == reverse_segment(old(data)@, from as int, to as int),
        final(data)@.to_multiset() == old(data)@.to_multiset(),
{
    let ghost s = data@;
    let n = data.len();
    let f = from % n;
    let t = to % n;
    // number of elements in the segment, between 1 and n
    let len: usize = if t < f {
        n - (f - t) + 1
    } else {
        t - f + 1
    };
    let ghost end = segment_end(n as int, from as int, to as int);
    assert(end - f + 1 == len);
    let mut i: usize = 0;
    while i < len / 2
        invariant
            data@.len() == n,
            s.len() == n,
            0 < n,
            f < n,
            f == from as int % n as int,
            1 <= len <= n,
            end == f + len - 1,
            i <= len / 2,
            data@.to_multiset() == s.to_multiset(),
            forall|k: int|
                #![trigger data@[k]]
                0 <= k < n ==> data@[k] == if ((k - f) % (n as int) < i || (len - 1 - i) < (k
                    - f) % (n as int) <= len - 1) {
                    s[(end - (k - f) % (n as int)) % (n as int)]
                } else {
                    s[k]
                },
        decreases len / 2 - i,
    {
        let j = len - 1 - i;
        let a = add_mod(f, i, n);
        let b = add_mod(f, j, n);
        proof {
            lemma_offset_round_trip(f as int, i as int, n as int);
            lemma_offset_round_trip(f as int, j as int, n as int);
        }
        let ghost before = data@;
        let x = data[a];
        let y = data[b];
        data[a] = y;
        data[b] = x;
        proof {
            broadcast use vstd::multiset::group_multiset_axioms;

            assert(a != b);
            let mid = before.update(a as int, y);
            to_multiset_update(before, a as int, y);
            to_multiset_update(mid, b as int, x);
            assert(data@ == mid.update(b as int, x));
            assert(mid[b as int] == y);
            let m = before.to_multiset();
            to_multiset_contains(before, x);
            to_multiset_contains(mid, y);
            assert(before[a as int] == x);
            assert(data@.to_multiset() =~= m);
            assert forall|k: int| 0 <= k < n implies #[trigger] data@[k] == if ((k - f) % (
            n as int) < i + 1 || (len - 1 - (i + 1)) < (k - f) % (n as int) <= len - 1) {
                s[(end - (k - f) % (n as int)) % (n as int)]
            } else {
                s[k]
            } by {
                lemma_offset_covers(f as int, k, n as int);
                if k == a {
                    assert((end - i) == f + j);
                } else if k == b {
                    assert(end - j == f + i);
                }
            }
        }
        i = i + 1;
    }
    proof {
        assert forall|k: int| 0 <= k < n implies #[trigger] data@[k] == reverse_segment(
            s,
            from as int,
            to as int,
        )[k] by {
            lemma_offset_covers(f as int, k, n as int);
            let d = (k - f) % (n as int);
            if i <= d <= len - 1 - i {
                // the middle of an odd segment stays where it is
                assert(end - d == f + d);
            }
        }
        assert(data@ =~= reverse_segment(s, from as int, to as int));
    }
}

/// Reversing the same circular segment twice restores the ring.
pub proof fn lemma_reverse_segment_involution(s: Seq<u8>, from: int, to: int)
    requires
        s.len() > 0,
    ensures
        reverse_segment(reverse_segment(s, from, to), from, to) == s,
{
    let n = s.len() as int;
    let f = from % n;
    let t = segment_end(n, from, to);
    let once = reverse_segment(s, from, to);
    let twice = reverse_segment(once, from, to);
    assert forall|k: int| 0 <= k < n implies #[trigger] twice[k] == s[k] by {
        lemma_offset_covers(f, k, n);
        let d = (k - f) % n;
        if d <= t - f {
            let m = (t - d) % n;
            lemma_offset_round_trip(f, t - f - d, n);
            assert(t - d == f + (t - f - d));
            lemma_offset_covers(f, m, n);
            assert((m - f) % n == t - f - d);
            assert(t - (t - f - d) == f + d);
        }
    }
    assert(twice =~= s);
}

} // verus!
