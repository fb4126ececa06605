//! Labels of a name as text: splitting the characters of a name at its dots
//! and splitting its UTF-8 bytes at the dot byte come to the same labels.

use crate::name_format::{dot_free, first_label_len, labels, lemma_first_label_len, DOT};
use vstd::prelude::*;
use vstd::utf8::{encode_scalar, encode_utf8};

verus! {

/// How many characters of `text` stand before its first dot, or in all of it
/// where it has none.
pub open spec fn first_part_len(text: Seq<char>) -> nat
    decreases text.len(),
{
    if text.len() == 0 || text[0] == '.' {
        0
    } else {
        1 + first_part_len(text.drop_first())
    }
}

/// The parts of a text between its dots, in order.
pub open spec fn parts(text: Seq<char>) -> Seq<Seq<char>>
    decreases text.len(),
{
    let k = first_part_len(text) as int;
    if k >= text.len() {
        seq![text]
    } else {
        seq![text.take(k)] + parts(text.skip(k + 1))
    }
}

/// Each part of a text in UTF-8.
pub open spec fn encoded_parts(text: Seq<char>) -> Seq<Seq<u8>> {
    Seq::new(parts(text).len(), |i: int| encode_utf8(parts(text)[i]))
}

/// The first part ends within the text, and at a dot where it ends before
/// the text does; no dot stands in it.
pub proof fn lemma_first_part_len(text: Seq<char>)
    ensures
        first_part_len(text) <= text.len(),
        first_part_len(text) < text.len() ==> text[first_part_len(text) as int] == '.',
        forall|i: int| 0 <= i < first_part_len(text) ==> text[i] != '.',
    decreases text.len(),
{
    if text.len() > 0 && text[0] != '.' {
        let rest = text.drop_first();
        lemma_first_part_len(rest);
        assert forall|i: int| 0 <= i < first_part_len(text) implies text[i] != '.' by {
            if i > 0 {
                assert(text[i] == rest[i - 1]);
            }
        }
    }
}

/// The dot is encoded as the dot byte, and no byte of another character's
/// encoding is the dot byte.
pub proof fn lemma_encode_scalar_dot(c: char)
    ensures
        c == '.' ==> encode_scalar(c as u32) == seq![DOT],
        c != '.' ==> dot_free(encode_scalar(c as u32)),
        encode_scalar(c as u32).len() >= 1,
{
    let s = c as u32;
    assert(s < 0x80 ==> (s & 0x7F) as u8 == s) by (bit_vector);
    assert(0xC0u8 | ((s >> 6) & 0x1F) as u8 >= 0x80) by (bit_vector);
    assert(0xE0u8 | ((s >> 12) & 0x0F) as u8 >= 0x80) by (bit_vector);
    assert(0xF0u8 | ((s >> 18) & 0x7) as u8 >= 0x80) by (bit_vector);
    assert(0x80u8 | (s & 0x3F) as u8 >= 0x80) by (bit_vector);
    assert(0x80u8 | ((s >> 6) & 0x3F) as u8 >= 0x80) by (bit_vector);
    assert(0x80u8 | ((s >> 12) & 0x3F) as u8 >= 0x80) by (bit_vector);
    if c == '.' {
        assert(encode_scalar(s) =~= seq![DOT]);
    }
}

/// The encoding of two texts in a row is the encoding of the first and then
/// that of the second.
pub proof fn lemma_encode_utf8_concat(a: Seq<char>, b: Seq<char>)
    ensures
        encode_utf8(a + b) == encode_utf8(a) + encode_utf8(b),
    decreases a.len(),
{
    if a.len() == 0 {
        assert(a + b =~= b);
        assert(encode_utf8(a) + encode_utf8(b) =~= encode_utf8(b));
    } else {
        assert((a + b).drop_first() =~= a.drop_first() + b);
        lemma_encode_utf8_concat(a.drop_first(), b);
        assert(encode_utf8(a + b) =~= encode_utf8(a) + encode_utf8(b));
    }
}

/// The encoding of a text without a dot holds no dot byte.
pub proof fn lemma_encode_utf8_dot_free(text: Seq<char>)
    requires
        forall|i: int| 0 <= i < text.len() ==> text[i] != '.',
    ensures
        dot_free(encode_utf8(text)),
    decreases text.len(),
{
    if text.len() > 0 {
        lemma_encode_scalar_dot(text[0]);
        lemma_encode_utf8_dot_free(text.drop_first());
    }
}

/// The labels of a name's bytes are the encodings of the parts of its text:
/// telling the labels apart in the bytes is splitting the text at its dots.
pub proof fn lemma_labels_of_text(text: Seq<char>)
    ensures
        labels(encode_utf8(text)) == encoded_parts(text),
    decreases text.len(),
{
    let bytes = encode_utf8(text);
    let k = first_part_len(text) as int;
    lemma_first_part_len(text);
    let head = text.take(k);
    let head_bytes = encode_utf8(head);
    let m = head_bytes.len() as int;
    lemma_encode_utf8_dot_free(head);
    assert(bytes.skip(0) =~= bytes);
    if k >= text.len() {
        assert(head =~= text);
        lemma_first_label_len(bytes, 0, m);
        assert(labels(bytes) =~= encoded_parts(text));
    } else {
        let tail = text.skip(k + 1);
        let tail_bytes = encode_utf8(tail);
        assert(text =~= head + (seq!['.'] + tail));
        lemma_encode_utf8_concat(head, seq!['.'] + tail);
        lemma_encode_utf8_concat(seq!['.'], tail);
        lemma_encode_scalar_dot('.');
        assert(encode_utf8(seq!['.']) =~= seq![DOT]) by {
            assert(seq!['.'].drop_first() =~= Seq::<char>::empty());
            assert(encode_utf8(Seq::<char>::empty()) =~= Seq::<u8>::empty());
        }
        assert(bytes =~= head_bytes + seq![DOT] + tail_bytes);
        lemma_first_label_len(bytes, 0, m);
        assert(first_label_len(bytes) == m);
        assert(bytes.take(m) =~= head_bytes);
        assert(bytes.skip(m + 1) =~= tail_bytes);
        lemma_labels_of_text(tail);
        assert(labels(bytes) =~= encoded_parts(text));
    }
}

} // verus!
