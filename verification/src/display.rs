//! Text layout for the song list: fixed-width columns.
use vstd::prelude::*;
use vstd::utf8::{decode_utf8, encode_utf8, is_char_boundary};
use crate::text::{chars_of, string_of};

verus! {

/// `n` spaces.
pub open spec fn spaces(n: nat) -> Seq<char> {
    Seq::new(n, |i: int| ' ')
}

/// A column of `length` characters: the text cut after `length` bytes when
/// its UTF-8 form is longer, else padded with spaces to `length` characters.
pub open spec fn fixed_width_spec(v: Seq<char>, length: nat) -> Seq<char> {
    if length == 0 {
        Seq::empty()
    } else if encode_utf8(v).len() > length {
        decode_utf8(encode_utf8(v).subrange(0, length as int))
    } else if v.len() < length {
        v + spaces((length - v.len()) as nat)
    } else {
        v
    }
}

/// `value` fitted to a column of width `length`. Cutting happens at a byte
/// offset, which must fall between two characters.
pub fn fixed_width_string(value: &str, length: usize) -> (r: String)
    requires
        length == 0 || encode_utf8(value@).len() <= length || is_char_boundary(
            encode_utf8(value@),
            length as int,
        ),
    ensures
        r@ == fixed_width_spec(value@, length as nat),
{
    if length == 0 {
        return String::new();
    }
    let byte_len = value.as_bytes().len();
    if byte_len > length {
        let (head, _) = value.split_at(length);
        proof {
            vstd::utf8::encode_utf8_decode_utf8(head@);
        }
        return head.to_owned();
    }
    assert(byte_len as int == encode_utf8(value@).len());
    let mut out = chars_of(value);
    let ghost v = value@;
    while out.len() < length
        invariant
            v == value@,
            v.len() <= out@.len() <= (if v.len() < length { length as int } else { v.len() as int }),
            out@ == v + spaces((out@.len() - v.len()) as nat),
        decreases length - out@.len(),
    {
        out.push(' ');
        assert(out@ =~= v + spaces((out@.len() - v.len()) as nat));
    }
    proof {
        if v.len() >= length {
            assert(spaces(0) =~= Seq::<char>::empty());
            assert(out@ =~= v);
        }
    }
    string_of(&out)
}

} // verus!
