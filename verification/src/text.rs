//! Text cut out of a source, and the facts about character boundaries that
//! make the cuts sound.
use crate::lexical::text;
use vstd::prelude::*;
use vstd::string::{StringExecFns, StringSliceAdditionalSpecFns};
use vstd::utf8::{
    decode_utf8, encode_utf8, group_utf8_lib, is_char_boundary, is_continuation_byte,
    is_leading_byte_width_1, length_of_first_scalar, pop_first_scalar, valid_first_scalar,
    valid_utf8,
};

verus! {

/// A boundary of the whole is a boundary of every prefix that ends on a
/// boundary.
pub proof fn lemma_prefix_boundary(bytes: Seq<u8>, start: int, end: int)
    requires
        valid_utf8(bytes),
        0 <= start <= end <= bytes.len(),
        is_char_boundary(bytes, start),
        is_char_boundary(bytes, end),
    ensures
        valid_utf8(bytes.subrange(0, end)),
        is_char_boundary(bytes.subrange(0, end), start),
{
    broadcast use group_utf8_lib;

    let head = bytes.subrange(0, end);
    assert(valid_utf8(head));
    if start < end {
        assert(head[start] == bytes[start]);
        assert(!is_continuation_byte(bytes[start]));
    } else {
        assert(start == head.len());
    }
}

/// An ASCII byte is a character by itself: there is a boundary before it and
/// one after it.
pub proof fn lemma_ascii_boundaries(bytes: Seq<u8>, i: int)
    requires
        valid_utf8(bytes),
        0 <= i < bytes.len(),
        bytes[i] < 0x80,
    ensures
        is_char_boundary(bytes, i),
        is_char_boundary(bytes, i + 1),
{
    broadcast use group_utf8_lib;

    assert(!is_continuation_byte(bytes[i]));
    assert(is_char_boundary(bytes, i));
    if i + 1 < bytes.len() {
        let tail = bytes.subrange(i, bytes.len() as int);
        assert(valid_utf8(tail));
        assert(tail[0] == bytes[i]);
        assert(is_leading_byte_width_1(tail[0]));
        assert(length_of_first_scalar(tail) == 1);
        let rest = pop_first_scalar(tail);
        assert(valid_utf8(rest));
        assert(rest.len() > 0);
        assert(valid_first_scalar(rest));
        assert(rest[0] == bytes[i + 1]);
        assert(!is_continuation_byte(bytes[i + 1]));
    }
}

/// Text that lies between boundaries encodes to exactly the bytes it was cut
/// from.
pub proof fn lemma_text_encodes(bytes: Seq<u8>, start: int, end: int)
    requires
        valid_utf8(bytes),
        0 <= start <= end <= bytes.len(),
        is_char_boundary(bytes, start),
        is_char_boundary(bytes, end),
    ensures
        encode_utf8(text(bytes, start, end)) == bytes.subrange(start, end),
{
    broadcast use group_utf8_lib;

    lemma_prefix_boundary(bytes, start, end);
    let head = bytes.subrange(0, end);
    assert(head.subrange(start, head.len() as int) == bytes.subrange(start, end));
    assert(valid_utf8(bytes.subrange(start, end)));
}

/// The text of `source[start..end]`.
pub fn slice_text(source: &str, start: usize, end: usize) -> (piece: String)
    requires
        start <= end <= source.spec_bytes().len(),
    ensures
        piece@ == text(source.spec_bytes(), start as int, end as int),
{
    broadcast use group_utf8_lib;

    if source.is_char_boundary(start) && source.is_char_boundary(end) {
        proof {
            lemma_prefix_boundary(source.spec_bytes(), start as int, end as int);
        }
        let (head, _) = source.split_at(end);
        let (_, tail) = head.split_at(start);
        assert(tail.spec_bytes() == source.spec_bytes().subrange(start as int, end as int));
        tail.to_owned()
    } else {
        String::new()
    }
}

/// Whether two texts are the same, character for character.
pub fn same_text(a: &str, b: &str) -> (same: bool)
    ensures
        same == (a@ == b@),
{
    broadcast use group_utf8_lib;

    let x = a.as_bytes();
    let y = b.as_bytes();
    if x.len() != y.len() {
        return false;
    }
    let mut i: usize = 0;
    while i < x.len()
        invariant
            x@ == a.spec_bytes(),
            y@ == b.spec_bytes(),
            x@.len() == y@.len(),
            i <= x@.len(),
            forall|j: int| 0 <= j < i ==> x@[j] == y@[j],
        decreases x@.len() - i,
    {
        if x[i] != y[i] {
            return false;
        }
        i += 1;
    }
    assert(x@ =~= y@);
    assert(decode_utf8(encode_utf8(a@)) == decode_utf8(encode_utf8(b@)));
    true
}

/// The numeral of one decimal digit.
pub open spec fn digit(d: nat) -> Seq<char> {
    if d == 0 {
        "0"@
    } else if d == 1 {
        "1"@
    } else if d == 2 {
        "2"@
    } else if d == 3 {
        "3"@
    } else if d == 4 {
        "4"@
    } else if d == 5 {
        "5"@
    } else if d == 6 {
        "6"@
    } else if d == 7 {
        "7"@
    } else if d == 8 {
        "8"@
    } else {
        "9"@
    }
}

/// The decimal numeral of `n`, without leading zeros.
pub open spec fn decimal(n: nat) -> Seq<char>
    decreases n,
{
    if n < 10 {
        digit(n)
    } else {
        decimal(n / 10) + digit(n % 10)
    }
}

/// The numeral of one decimal digit.
fn digit_text(d: usize) -> (numeral: &'static str)
    requires
        d < 10,
    ensures
        numeral@ == digit(d as nat),
{
    if d == 0 {
        "0"
    } else if d == 1 {
        "1"
    } else if d == 2 {
        "2"
    } else if d == 3 {
        "3"
    } else if d == 4 {
        "4"
    } else if d == 5 {
        "5"
    } else if d == 6 {
        "6"
    } else if d == 7 {
        "7"
    } else if d == 8 {
        "8"
    } else {
        "9"
    }
}

/// The decimal numeral of `n`.
pub fn decimal_text(n: usize) -> (numeral: String)
    ensures
        numeral@ == decimal(n as nat),
    decreases n,
{
    if n < 10 {
        digit_text(n).to_owned()
    } else {
        let mut numeral = decimal_text(n / 10);
        numeral.append(digit_text(n % 10));
        numeral
    }
}

} // verus!
