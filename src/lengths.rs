//! Turning input text into a sequence of lengths.
use vstd::prelude::*;
use vstd::string::StringSliceAdditionalSpecFns;

verus! {

/// The comma that separates lengths in numeric text.
pub const COMMA: u8 = 44;

/// The sign that may stand before a number.
pub const PLUS: u8 = 43;

pub open spec fn is_digit(b: u8) -> bool {
    48 <= b <= 57
}

/// The value of a string of decimal digits, most significant first.
pub open spec fn digits_value(d: Seq<u8>) -> int
    decreases d.len(),
{
    if d.len() == 0 {
        0
    } else {
        digits_value(d.drop_last()) * 10 + (d.last() - 48)
    }
}

/// The text of a number without its leading `+`, if it has one.
pub open spec fn unsigned_part(t: Seq<u8>) -> Seq<u8> {
    if t.len() > 0 && t[0] == PLUS {
        t.drop_first()
    } else {
        t
    }
}

/// A length written as text: an optional `+`, then at least one decimal
/// digit, with a value of at most 255.
pub open spec fn parse_length(t: Seq<u8>) -> Option<u8> {
    let d = unsigned_part(t);
    if d.len() > 0 && (forall|i: int| 0 <= i < d.len() ==> is_digit(#[trigger] d[i]))
        && digits_value(d) <= 255 {
        Some(digits_value(d) as u8)
    } else {
        None
    }
}

/// The pieces of `s` between commas, in order; text with no comma is one
/// piece, and empty text is one empty piece.
pub open spec fn split_commas(s: Seq<u8>) -> Seq<Seq<u8>>
    decreases s.len(),
{
    if s.len() == 0 {
        seq![Seq::empty()]
    } else {
        let init = split_commas(s.drop_last());
        if s.last() == COMMA {
            init.push(Seq::empty())
        } else {
            init.update(init.len() - 1, init.last().push(s.last()))
        }
    }
}

/// The lengths that comma-separated text stands for, or `None` when a piece
/// is not a length.
pub open spec fn parsed_lengths(s: Seq<u8>) -> Option<Seq<u8>> {
    let pieces = split_commas(s);
    if forall|j: int| 0 <= j < pieces.len() ==> (#[trigger] parse_length(pieces[j])) is Some {
        Some(pieces.map_values(|t: Seq<u8>| parse_length(t).unwrap()))
    } else {
        None
    }
}

/// The length of each byte of `data`, in order.
pub fn convert_lengths(data: &str) -> (r: Vec<u8>)
    ensures
        r@ == data.spec_bytes(),
{
    let bytes = data.as_bytes();
    let mut r: Vec<u8> = Vec::new();
    let mut i: usize = 0;
    while i < bytes.len()
        invariant
            i <= bytes@.len(),
            r@ == bytes@.take(i as int),
        decreases bytes@.len() - i,
    {
        r.push(bytes[i]);
        i = i + 1;
        assert(r@ =~= bytes@.take(i as int));
    }
    assert(bytes@.take(i as int) =~= bytes@);
    r
}

/// Reads one length from its text.
fn parse_token(t: &[u8]) -> (r: Option<u8>)
    ensures
        r == parse_length(t@),
{
    let start: usize = if t.len() > 0 && t[0] == PLUS {
        1
    } else {
        0
    };
    let ghost d = t@.skip(start as int);
    assert(d =~= unsigned_part(t@));
    if start == t.len() {
        return None;
    }
    // the value read so far, held at 256 once it passes 255
    let mut v: u32 = 0;
    let mut i: usize = start;
    while i < t.len()
        invariant
            start <= i <= t@.len(),
            d == t@.skip(start as int),
            d == unsigned_part(t@),
            forall|k: int| 0 <= k < i - start ==> is_digit(#[trigger] d[k]),
            v == if digits_value(d.take(i - start)) > 255 {
                256
            } else {
                digits_value(d.take(i - start))
            },
        decreases t@.len() - i,
    {
        let b = t[i];
        assert(d[i - start] == b);
        if b < 48 || b > 57 {
            assert(!is_digit(d[i - start]));
            return None;
        }
        let ghost before = d.take(i - start);
        let ghost after = d.take(i - start + 1);
        assert(after.drop_last() =~= before);
        if v > 255 {
            v = 256;
        } else {
            v = v * 10 + (b - 48) as u32;
            if v > 256 {
                v = 256;
            }
        }
        i = i + 1;
    }
    assert(d.take(i - start) =~= d);
    if v > 255 {
        None
    } else {
        Some(v as u8)
    }
}

/// The lengths written in `data` as comma-separated decimal numbers, or
/// `None` when a piece is not a number from 0 to 255.
pub fn parse_lengths(data: &str) -> (r: Option<Vec<u8>>)
    ensures
        match r {
            Some(v) => parsed_lengths(data.spec_bytes()) == Some(v@),
            None => parsed_lengths(data.spec_bytes()) is None,
        },
{
    let bytes = data.as_bytes();
    let mut out: Vec<u8> = Vec::new();
    let mut cur: Vec<u8> = Vec::new();
    let mut ok = true;
    let ghost mut done: Seq<Seq<u8>> = Seq::empty();
    let mut i: usize = 0;
    assert(bytes@.take(0) =~= Seq::<u8>::empty());
    while i < bytes.len()
        invariant
            i <= bytes@.len(),
            split_commas(bytes@.take(i as int)) == done.push(cur@),
            out@.len() == done.len(),
            ok <==> forall|j: int| 0 <= j < done.len() ==> (#[trigger] parse_length(done[j])) is Some,
            forall|j: int|
                0 <= j < done.len() && parse_length(#[trigger] done[j]) is Some ==> out@[j]
                    == parse_length(done[j]).unwrap(),
        decreases bytes@.len() - i,
    {
        let b = bytes[i];
        let ghost s = bytes@.take(i as int + 1);
        assert(s.drop_last() =~= bytes@.take(i as int));
        if b == COMMA {
            let piece = parse_token(cur.as_slice());
            let ghost old_done = done;
            proof {
                done = done.push(cur@);
                assert(done[old_done.len() as int] == cur@);
                assert(forall|j: int| 0 <= j < old_done.len() ==> done[j] == old_done[j]);
            }
            match piece {
                Some(l) => out.push(l),
                None => {
                    ok = false;
                    out.push(0);
                },
            }
            cur = Vec::new();
            assert(split_commas(s) =~= done.push(cur@));
        } else {
            cur.push(b);
            assert(split_commas(s) =~= done.push(cur@));
        }
        i = i + 1;
    }
    assert(bytes@.take(i as int) =~= bytes@);
    let last = parse_token(cur.as_slice());
    let ghost pieces = done.push(cur@);
    match last {
        Some(l) => {
            if ok {
                out.push(l);
                assert(out@ =~= pieces.map_values(|t: Seq<u8>| parse_length(t).unwrap()));
                Some(out)
            } else {
                proof {
                    let j = choose|j: int|
                        0 <= j < done.len() && (#[trigger] parse_length(done[j])) is None;
                    assert(parse_length(pieces[j]) is None);
                }
                None
            }
        },
        None => {
            assert(parse_length(pieces[done.len() as int]) is None);
            None
        },
    }
}

} // verus!
