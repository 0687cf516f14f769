//! Facts about decoding well-formed UTF-8 line bodies: ASCII bytes decode to
//! the characters with the same codes, decoding distributes over
//! concatenation, and an ASCII byte that does not occur yields no character.

use vstd::prelude::*;
use vstd::utf8::*;

verus! {

/// The characters of bytes taken one by one (the decoding of ASCII bytes).
pub open spec fn ascii_chars(b: Seq<u8>) -> Seq<char> {
    b.map_values(|x: u8| x as char)
}

proof fn lemma_width_1(b: u8)
    requires
        b <= 0x7f,
    ensures
        codepoint_width_1(b) == b as u32,
{
    assert((b & 0x7f) as u32 == b as u32) by (bit_vector)
        requires
            b <= 0x7f,
    ;
}

/// Bytes that start with ASCII bytes decode to those characters followed by
/// the decoding of the rest, which is well-formed too.
pub proof fn lemma_ascii_prefix(y: Seq<u8>, m: int)
    requires
        valid_utf8(y),
        0 <= m <= y.len(),
        forall|j: int| 0 <= j < m ==> #[trigger] y[j] <= 0x7f,
    ensures
        valid_utf8(y.subrange(m, y.len() as int)),
        decode_utf8(y) == ascii_chars(y.subrange(0, m)) + decode_utf8(y.subrange(m, y.len() as int)),
    decreases m,
{
    if m == 0 {
        assert(y.subrange(0, y.len() as int) =~= y);
        assert(ascii_chars(y.subrange(0, 0)) =~= Seq::<char>::empty());
        assert(ascii_chars(y.subrange(0, 0)) + decode_utf8(y) =~= decode_utf8(y));
    } else {
        lemma_width_1(y[0]);
        let rest = pop_first_scalar(y);
        assert(rest =~= y.subrange(1, y.len() as int));
        assert forall|j: int| 0 <= j < m - 1 implies #[trigger] rest[j] <= 0x7f by {
            assert(rest[j] == y[j + 1]);
        }
        lemma_ascii_prefix(rest, m - 1);
        assert(rest.subrange(m - 1, rest.len() as int) =~= y.subrange(m, y.len() as int));
        assert(ascii_chars(y.subrange(0, m)) =~= seq![y[0] as char] + ascii_chars(
            rest.subrange(0, m - 1),
        ));
        assert(decode_utf8(y) == seq![y[0] as char] + decode_utf8(rest));
    }
}

/// ASCII bytes are well-formed UTF-8 and decode to the same codes.
pub proof fn lemma_ascii_valid(y: Seq<u8>)
    requires
        forall|j: int| 0 <= j < y.len() ==> #[trigger] y[j] <= 0x7f,
    ensures
        valid_utf8(y),
        decode_utf8(y) == ascii_chars(y),
    decreases y.len(),
{
    if y.len() == 0 {
        assert(ascii_chars(y) =~= Seq::<char>::empty());
    } else {
        lemma_width_1(y[0]);
        let rest = pop_first_scalar(y);
        assert(rest =~= y.subrange(1, y.len() as int));
        assert forall|j: int| 0 <= j < rest.len() implies #[trigger] rest[j] <= 0x7f by {
            assert(rest[j] == y[j + 1]);
        }
        lemma_ascii_valid(rest);
        assert(ascii_chars(y) =~= seq![y[0] as char] + ascii_chars(rest));
    }
}

/// Encoding distributes over concatenation.
pub proof fn lemma_encode_concat(a: Seq<char>, b: Seq<char>)
    ensures
        encode_utf8(a + b) == encode_utf8(a) + encode_utf8(b),
    decreases a.len(),
{
    if a.len() == 0 {
        assert(a + b =~= b);
        assert(encode_utf8(a) + encode_utf8(b) =~= encode_utf8(b));
    } else {
        assert((a + b).drop_first() =~= a.drop_first() + b);
        assert((a + b)[0] == a[0]);
        lemma_encode_concat(a.drop_first(), b);
        assert(encode_utf8(a + b) =~= encode_utf8(a) + encode_utf8(b));
    }
}

/// Two well-formed pieces make a well-formed whole, decoded piece by piece.
pub proof fn lemma_decode_concat(a: Seq<u8>, b: Seq<u8>)
    requires
        valid_utf8(a),
        valid_utf8(b),
    ensures
        valid_utf8(a + b),
        decode_utf8(a + b) == decode_utf8(a) + decode_utf8(b),
{
    valid_utf8_concat(a, b);
    decode_utf8_encode_utf8(a);
    decode_utf8_encode_utf8(b);
    lemma_encode_concat(decode_utf8(a), decode_utf8(b));
    encode_utf8_decode_utf8(decode_utf8(a) + decode_utf8(b));
}

/// An ASCII byte that does not occur in well-formed bytes is the code of no
/// decoded character.
pub proof fn lemma_absent_ascii(y: Seq<u8>, c: u8)
    requires
        valid_utf8(y),
        c <= 0x7f,
        !y.contains(c),
    ensures
        forall|j: int| 0 <= j < decode_utf8(y).len() ==> #[trigger] decode_utf8(y)[j] != c as char,
{
    decode_utf8_encode_utf8(y);
    let d = decode_utf8(y);
    assert forall|j: int| 0 <= j < d.len() implies #[trigger] d[j] != c as char by {
        if d[j] == c as char {
            let head = d.subrange(0, j);
            let tail = d.subrange(j, d.len() as int);
            assert(d =~= head + tail);
            lemma_encode_concat(head, tail);
            assert(tail[0] == c as char);
            let cu = c as u32;
            assert((c as char) as u32 == cu);
            assert((cu & 0x7f) as u8 == c) by (bit_vector)
                requires
                    cu == c as u32,
                    c <= 0x7f,
            ;
            assert(encode_scalar(tail[0] as u32) =~= seq![c]);
            assert(encode_utf8(tail) == encode_scalar(tail[0] as u32) + encode_utf8(
                tail.drop_first(),
            ));
            let at = encode_utf8(head).len() as int;
            assert(y[at] == encode_utf8(tail)[0]);
            assert(y.contains(c));
        }
    }
}

} // verus!
