//! Rendering bytes as lowercase hexadecimal text.
use vstd::prelude::*;
use vstd::string::StringExecFns;

verus! {

/// The lowercase hexadecimal digit for `d`, which is below 16.
pub open spec fn hex_char(d: u8) -> char {
    if d < 10 {
        ((48 + d) as u8) as char
    } else {
        ((87 + d) as u8) as char
    }
}

/// Two digits for each byte of `s`, high digit first, in order.
pub open spec fn hex_text(s: Seq<u8>) -> Seq<char>
    decreases s.len(),
{
    if s.len() == 0 {
        Seq::empty()
    } else {
        hex_text(s.drop_last()) + seq![hex_char(s.last() / 16), hex_char(s.last() % 16)]
    }
}

/// The digit for `d` as text of its own.
fn hex_digit(d: u8) -> (r: &'static str)
    requires
        d < 16,
    ensures
        r@ == seq![hex_char(d)],
{
    let digits = "0123456789abcdef";
    proof {
        reveal_strlit("0123456789abcdef");
    }
    assert(digits.is_ascii());
    let r = digits.substring_ascii(d as usize, d as usize + 1);
    assert(r@ =~= seq![hex_char(d)]);
    r
}

/// Each byte of `v` as two lowercase hexadecimal digits, in order, with no
/// separator.
pub fn as_hex_string(v: &[u8]) -> (r: String)
    ensures
        r@ == hex_text(v@),
        r@.len() == 2 * v@.len(),
{
    let mut r = String::new();
    let mut i: usize = 0;
    while i < v.len()
        invariant
            i <= v@.len(),
            r@ == hex_text(v@.take(i as int)),
            r@.len() == 2 * i,
        decreases v@.len() - i,
    {
        assert(v@.take(i as int + 1).drop_last() =~= v@.take(i as int));
        let b = v[i];
        r.append(hex_digit(b / 16));
        r.append(hex_digit(b % 16));
        i = i + 1;
        assert(r@ =~= hex_text(v@.take(i as int)));
    }
    assert(v@.take(i as int) =~= v@);
    r
}

} // verus!
