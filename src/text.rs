use vstd::prelude::*;
use vstd::utf8::encode_utf8;

use crate::oid::ObjectId;

verus! {

/// Relies on `String::push`: `c` is appended to `s`.
#[verifier::external_body]
pub(crate) fn append_char(s: &mut String, c: char)
    ensures
        final(s)@ == old(s)@.push(c),
{
    s.push(c);
}

/// The bytes of the UTF-8 encoding of `s`.
pub fn utf8_bytes(s: &str) -> (r: Vec<u8>)
    ensures
        r@ == encode_utf8(s@),
{
    let mut v: Vec<u8> = Vec::new();
    v.extend_from_slice(s.as_bytes());
    assert(v@ =~= encode_utf8(s@));
    v
}

/// The lowercase hexadecimal digit for a value below sixteen.
pub open spec fn hex_digit(n: u8) -> char {
    if n < 10 {
        ((n + 48) as u8) as char
    } else {
        ((n + 87) as u8) as char
    }
}

/// Two lowercase hexadecimal digits per byte.
pub open spec fn hex_of(b: Seq<u8>) -> Seq<char>
    decreases b.len(),
{
    if b.len() == 0 {
        Seq::empty()
    } else {
        hex_of(b.drop_last()) + seq![hex_digit(b.last() / 16), hex_digit(b.last() % 16)]
    }
}

/// The hexadecimal digit for a value below sixteen.
pub(crate) fn hex_digit_exec(n: u8) -> (r: char)
    requires
        n < 16,
    ensures
        r == hex_digit(n),
{
    if n < 10 {
        ((n + 48) as u8) as char
    } else {
        ((n + 87) as u8) as char
    }
}

/// Appends the 40 hexadecimal digits of `id` to `s`.
pub fn append_hex(s: &mut String, id: &ObjectId)
    ensures
        final(s)@ == old(s)@ + hex_of(id.bytes@),
{
    let mut i: usize = 0;
    while i < 20
        invariant
            0 <= i <= 20,
            id.bytes@.len() == 20,
            s@ == old(s)@ + hex_of(id.bytes@.subrange(0, i as int)),
        decreases 20 - i,
    {
        let b = id.bytes[i];
        let ghost before = s@;
        append_char(s, hex_digit_exec(b / 16));
        append_char(s, hex_digit_exec(b % 16));
        proof {
            let pre = id.bytes@.subrange(0, i + 1);
            assert(pre.drop_last() =~= id.bytes@.subrange(0, i as int));
            assert(pre.last() == b);
            assert(s@ =~= old(s)@ + hex_of(pre));
        }
        i = i + 1;
    }
    assert(id.bytes@.subrange(0, 20) =~= id.bytes@);
}

/// The 40 hexadecimal digits of `id`.
pub fn to_hex(id: &ObjectId) -> (r: String)
    ensures
        r@ == hex_of(id.bytes@),
{
    let mut s = String::new();
    append_hex(&mut s, id);
    assert(s@ =~= hex_of(id.bytes@));
    s
}

} // verus!
