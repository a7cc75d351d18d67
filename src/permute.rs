//! The length-driven permutation of a ring ("sparse hash").
use crate::ring::{add_mod, reverse_segment, swap_slice};
use vstd::arithmetic::div_mod::{lemma_add_mod_noop, lemma_add_mod_noop_right, lemma_small_mod};
use vstd::prelude::*;

verus! {

/// The ring `0, 1, 2, ...` of `size` bytes, each index taken modulo 256.
pub open spec fn identity_ring(size: nat) -> Seq<u8> {
    Seq::new(size, |i: int| (i % 256) as u8)
}

/// `x` written `cycles` times in a row.
pub open spec fn repeat_lengths(x: Seq<u8>, cycles: nat) -> Seq<u8>
    decreases cycles,
{
    if cycles == 0 {
        Seq::empty()
    } else {
        x + repeat_lengths(x, (cycles - 1) as nat)
    }
}

/// One length applied at `pos`: the `l` elements from `pos` on are reversed;
/// a length of zero leaves the ring alone.
pub open spec fn knot_step(r: Seq<u8>, l: u8, pos: int) -> Seq<u8> {
    if l > 0 {
        reverse_segment(r, pos, pos + l - 1)
    } else {
        r
    }
}

/// The ring after applying `lengths` in order, starting at position `pos`
/// with skip size `skip`; after each length the position advances by the
/// length plus the skip size, and the skip size grows by one.
pub open spec fn knot_rounds(r: Seq<u8>, lengths: Seq<u8>, pos: int, skip: int) -> Seq<u8>
    decreases lengths.len(),
{
    if lengths.len() == 0 {
        r
    } else {
        knot_rounds(
            knot_step(r, lengths[0], pos),
            lengths.drop_first(),
            pos + lengths[0] + skip,
            skip + 1,
        )
    }
}

/// The position reached after applying `lengths` from `pos` with skip size `skip`.
pub open spec fn rounds_end(lengths: Seq<u8>, pos: int, skip: int) -> int
    decreases lengths.len(),
{
    if lengths.len() == 0 {
        pos
    } else {
        rounds_end(lengths.drop_first(), pos + lengths[0] + skip, skip + 1)
    }
}

proof fn lemma_knot_rounds_len(r: Seq<u8>, lengths: Seq<u8>, pos: int, skip: int)
    ensures
        knot_rounds(r, lengths, pos, skip).len() == r.len(),
    decreases lengths.len(),
{
    if lengths.len() > 0 {
        lemma_knot_rounds_len(
            knot_step(r, lengths[0], pos),
            lengths.drop_first(),
            pos + lengths[0] + skip,
            skip + 1,
        );
    }
}

/// Only the position and the skip size modulo the ring's length matter.
proof fn lemma_knot_rounds_mod(
    r: Seq<u8>,
    lengths: Seq<u8>,
    pos: int,
    skip: int,
    pos2: int,
    skip2: int,
)
    requires
        r.len() > 0,
        pos % (r.len() as int) == pos2 % (r.len() as int),
        skip % (r.len() as int) == skip2 % (r.len() as int),
    ensures
        knot_rounds(r, lengths, pos, skip) == knot_rounds(r, lengths, pos2, skip2),
        rounds_end(lengths, pos, skip) % (r.len() as int) == rounds_end(lengths, pos2, skip2) % (
        r.len() as int),
    decreases lengths.len(),
{
    let n = r.len() as int;
    if lengths.len() > 0 {
        let l = lengths[0] as int;
        lemma_add_mod_noop(pos, l - 1, n);
        lemma_add_mod_noop(pos2, l - 1, n);
        assert(knot_step(r, lengths[0], pos) =~= knot_step(r, lengths[0], pos2));
        lemma_add_mod_noop(pos, l + skip, n);
        lemma_add_mod_noop(pos2, l + skip2, n);
        lemma_add_mod_noop(l, skip, n);
        lemma_add_mod_noop(l, skip2, n);
        lemma_add_mod_noop(skip, 1, n);
        lemma_add_mod_noop(skip2, 1, n);
        assert(pos + l + skip == pos + (l + skip));
        assert(pos2 + l + skip2 == pos2 + (l + skip2));
        lemma_knot_rounds_mod(
            knot_step(r, lengths[0], pos),
            lengths.drop_first(),
            pos + l + skip,
            skip + 1,
            pos2 + l + skip2,
            skip2 + 1,
        );
    }
}

/// Applying `a + b` is applying `a`, then `b` from where `a` left off.
pub proof fn lemma_knot_rounds_concat(r: Seq<u8>, a: Seq<u8>, b: Seq<u8>, pos: int, skip: int)
    ensures
        knot_rounds(r, a + b, pos, skip) == knot_rounds(
            knot_rounds(r, a, pos, skip),
            b,
            rounds_end(a, pos, skip),
            skip + a.len(),
        ),
        rounds_end(a + b, pos, skip) == rounds_end(b, rounds_end(a, pos, skip), skip + a.len()),
    decreases a.len(),
{
    if a.len() == 0 {
        assert(a + b =~= b);
    } else {
        assert((a + b).drop_first() =~= a.drop_first() + b);
        lemma_knot_rounds_concat(
            knot_step(r, a[0], pos),
            a.drop_first(),
            b,
            pos + a[0] + skip,
            skip + 1,
        );
    }
}

/// A length of zero reverses nothing: the ring comes out as if the zero were
/// removed, except that the lengths after it start one skip size further on
/// and with a skip size larger by one. A trailing zero changes nothing.
pub proof fn lemma_zero_length_only_advances(
    r: Seq<u8>,
    a: Seq<u8>,
    b: Seq<u8>,
    pos: int,
    skip: int,
)
    ensures
        knot_rounds(r, a + b, pos, skip) == knot_rounds(
            knot_rounds(r, a, pos, skip),
            b,
            rounds_end(a, pos, skip),
            skip + a.len(),
        ),
        knot_rounds(r, a + seq![0u8] + b, pos, skip) == knot_rounds(
            knot_rounds(r, a, pos, skip),
            b,
            rounds_end(a, pos, skip) + skip + a.len(),
            skip + a.len() + 1,
        ),
        knot_rounds(r, a.push(0u8), pos, skip) == knot_rounds(r, a, pos, skip),
{
    lemma_knot_rounds_concat(r, a, b, pos, skip);
    lemma_knot_rounds_concat(r, a, seq![0u8] + b, pos, skip);
    assert(a + seq![0u8] + b =~= a + (seq![0u8] + b));
    assert((seq![0u8] + b).drop_first() =~= b);
    lemma_knot_rounds_concat(r, a, seq![0u8], pos, skip);
    assert(a.push(0u8) =~= a + seq![0u8]);
    let q = knot_rounds(r, a, pos, skip);
    let z = seq![0u8];
    assert(z.len() == 1 && z[0] == 0);
    assert(z.drop_first() =~= Seq::<u8>::empty());
    assert(knot_step(q, 0u8, rounds_end(a, pos, skip)) == q);
    assert(knot_rounds(q, Seq::<u8>::empty(), rounds_end(a, pos, skip) + skip + a.len(), skip + a.len() + 1) == q);
    assert(knot_rounds(q, seq![0u8], rounds_end(a, pos, skip), skip + a.len()) == q);
}

/// Applies `lengths` to `ring` from position `*pos` with skip size `*skip`,
/// leaving both counters reduced modulo the ring's length.
fn apply_lengths(ring: &mut [u8], lengths: &[u8], pos: &mut usize, skip: &mut usize)
    requires
        old(ring)@.len() > 0,
        *old(pos) < old(ring)@.len(),
        *old(skip) < old(ring)@.len(),
    ensures
        final(ring)@.len() == old(ring)@.len(),
        final(ring)@ == knot_rounds(old(ring)@, lengths@, *old(pos) as int, *old(skip) as int),
        *final(pos) as int == rounds_end(lengths@, *old(pos) as int, *old(skip) as int) % (old(
            ring,
        )@.len() as int),
        *final(skip) as int == (*old(skip) + lengths@.len()) % (old(ring)@.len() as int),
        final(ring)@.to_multiset() == old(ring)@.to_multiset(),
{
    let ghost r0 = ring@;
    let ghost p0 = *pos as int;
    let ghost s0 = *skip as int;
    let n = ring.len();
    proof {
        lemma_small_mod(*pos as nat, n as nat);
        lemma_small_mod(*skip as nat, n as nat);
    }
    let mut i: usize = 0;
    assert(lengths@.skip(0) =~= lengths@);
    while i < lengths.len()
        invariant
            ring@.len() == n,
            r0.len() == n,
            n > 0,
            *pos < n,
            *skip < n,
            i <= lengths@.len(),
            ring@.to_multiset() == r0.to_multiset(),
            knot_rounds(ring@, lengths@.skip(i as int), *pos as int, *skip as int) == knot_rounds(
                r0,
                lengths@,
                p0,
                s0,
            ),
            rounds_end(lengths@.skip(i as int), *pos as int, *skip as int) % (n as int)
                == rounds_end(lengths@, p0, s0) % (n as int),
            (*skip + (lengths@.len() - i)) % (n as int) == (s0 + lengths@.len()) % (n as int),
        decreases lengths@.len() - i,
    {
        let ghost r = ring@;
        let ghost p = *pos as int;
        let ghost s = *skip as int;
        let l = lengths[i];
        if l > 0 {
            let last = add_mod(*pos, ((l - 1) as usize) % n, n);
            swap_slice(ring, *pos, last);
            proof {
                lemma_add_mod_noop_right(p, (l - 1) as int, n as int);
                lemma_small_mod(last as nat, n as nat);
                assert(reverse_segment(r, p, last as int) =~= reverse_segment(r, p, p + l - 1));
            }
        }
        let advance = add_mod((l as usize) % n, *skip, n);
        *pos = add_mod(*pos, advance, n);
        *skip = add_mod(*skip, 1 % n, n);
        proof {
            let rest = lengths@.skip(i as int);
            assert(rest[0] == l);
            assert(rest.drop_first() =~= lengths@.skip(i + 1));
            lemma_small_mod(s as nat, n as nat);
            lemma_add_mod_noop(l as int, s, n as int);
            lemma_add_mod_noop_right(p, l + s, n as int);
            lemma_add_mod_noop_right(s, 1, n as int);
            lemma_small_mod(*pos as nat, n as nat);
            lemma_small_mod(*skip as nat, n as nat);
            assert(p + l + s == p + (l + s));
            lemma_knot_rounds_mod(
                ring@,
                lengths@.skip(i + 1),
                p + l + s,
                s + 1,
                *pos as int,
                *skip as int,
            );
            lemma_add_mod_noop(s + 1, (lengths@.len() - i - 1), n as int);
            lemma_add_mod_noop(*skip as int, (lengths@.len() - i - 1), n as int);
        }
        i = i + 1;
    }
    proof {
        assert(lengths@.skip(i as int) =~= Seq::<u8>::empty());
        lemma_small_mod(*pos as nat, n as nat);
        lemma_small_mod(*skip as nat, n as nat);
    }
}

/// Applies the lengths to the ring in order, starting at position 0 with
/// skip size 0; a length of zero reverses nothing but still advances.
pub fn hash(ring: &mut [u8], lengths: &[u8])
    requires
        old(ring)@.len() > 0,
    ensures
        final(ring)@ == knot_rounds(old(ring)@, lengths@, 0, 0),
        final(ring)@.to_multiset() == old(ring)@.to_multiset(),
{
    let mut pos: usize = 0;
    let mut skip: usize = 0;
    apply_lengths(ring, lengths, &mut pos, &mut skip);
}

/// The ring of `size` bytes `0, 1, 2, ...` permuted by `lengths` followed by
/// `extra`, the whole sequence taken `cycles` times; position and skip size
/// carry over from one cycle to the next.
pub fn sparse_hash(size: usize, lengths: Vec<u8>, extra: Vec<u8>, cycles: usize) -> (r: Vec<u8>)
    requires
        size > 0,
    ensures
        r@.len() == size,
        r@.to_multiset() == identity_ring(size as nat).to_multiset(),
        r@ == knot_rounds(identity_ring(size as nat), repeat_lengths(lengths@ + extra@, cycles as nat), 0, 0),
{
    let mut ring: Vec<u8> = Vec::new();
    let mut i: usize = 0;
    while i < size
        invariant
            i <= size,
            ring@ =~= identity_ring(i as nat),
        decreases size - i,
    {
        ring.push((i % 256) as u8);
        i = i + 1;
    }
    let ghost x = lengths@ + extra@;
    let ghost target = knot_rounds(identity_ring(size as nat), repeat_lengths(x, cycles as nat), 0, 0);
    let mut pos: usize = 0;
    let mut skip: usize = 0;
    let mut c: usize = 0;
    while c < cycles
        invariant
            c <= cycles,
            ring@.len() == size,
            size > 0,
            pos < size,
            skip < size,
            x == lengths@ + extra@,
            ring@.to_multiset() == identity_ring(size as nat).to_multiset(),
            knot_rounds(ring@, repeat_lengths(x, (cycles - c) as nat), pos as int, skip as int) == target,
        decreases cycles - c,
    {
        let ghost r = ring@;
        let ghost p = pos as int;
        let ghost s = skip as int;
        let ghost rest = repeat_lengths(x, (cycles - c - 1) as nat);
        apply_lengths(ring.as_mut_slice(), lengths.as_slice(), &mut pos, &mut skip);
        let ghost r1 = ring@;
        let ghost p1 = pos as int;
        let ghost s1 = skip as int;
        apply_lengths(ring.as_mut_slice(), extra.as_slice(), &mut pos, &mut skip);
        proof {
            let n = size as int;
            assert(repeat_lengths(x, (cycles - c) as nat) == x + rest);
            lemma_knot_rounds_concat(r, x, rest, p, s);
            lemma_knot_rounds_concat(r, lengths@, extra@, p, s);
            lemma_small_mod(p1 as nat, n as nat);
            lemma_small_mod(s1 as nat, n as nat);
            lemma_knot_rounds_len(r, lengths@, p, s);
            lemma_knot_rounds_mod(r1, extra@, rounds_end(lengths@, p, s), s + lengths@.len(), p1, s1);
            lemma_knot_rounds_len(r1, extra@, p1, s1);
            let r2 = knot_rounds(r, x, p, s);
            lemma_knot_rounds_len(r, x, p, s);
            lemma_small_mod(pos as nat, n as nat);
            lemma_small_mod(skip as nat, n as nat);
            let e = extra@.len() as int;
            let sl = s + lengths@.len();
            assert(s1 == sl % n);
            assert(skip as int == (s1 + e) % n);
            lemma_add_mod_noop_right(e, sl, n);
            assert(e + sl == s + x.len());
            assert(e + s1 == s1 + e);
            assert(skip as int == (s + x.len()) % n);
            lemma_knot_rounds_mod(r2, rest, rounds_end(x, p, s), s + x.len(), pos as int, skip as int);
        }
        c = c + 1;
    }
    proof {
        assert(repeat_lengths(x, 0) == Seq::<u8>::empty());
    }
    ring
}

} // verus!
