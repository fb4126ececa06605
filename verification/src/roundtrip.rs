//! Encoding and decoding agree: a name that was written is read back as its
//! own text in lower case.

use crate::byte_packet_buffer::{PacketView, PACKET_TRANSPORT_LIMIT};
use crate::error::CodecError;
use crate::name_format::{
    all_fit, delimiter, dot_free, emitted, first_label_len, label_wire, labels,
    lemma_first_label_len, lemma_first_label_len_bounds, read_name, NameReading, DOT, MAX_JUMPS,
    MAX_LABEL_LENGTH,
};
use crate::text::{ascii_lower, ascii_lowercase, label_text, lowercase};
use vstd::prelude::*;
use vstd::utf8::{
    encode_utf8, encode_utf8_decode_utf8, encode_utf8_valid_utf8, is_ascii_chars,
    is_ascii_chars_encode_utf8,
};

verus! {

/// Labels put together as a name: a dot between each two.
pub open spec fn joined(labels: Seq<Seq<u8>>) -> Seq<u8>
    decreases labels.len(),
{
    if labels.len() == 0 {
        Seq::empty()
    } else if labels.len() == 1 {
        labels[0]
    } else {
        labels[0] + seq![DOT] + joined(labels.drop_first())
    }
}

/// Whether no label is empty.
pub open spec fn none_empty(labels: Seq<Seq<u8>>) -> bool {
    forall|i: int| 0 <= i < labels.len() ==> (#[trigger] labels[i]).len() > 0
}

/// The texts of labels one after another, a dot before each; before the
/// first only where `first` is false.
pub open spec fn text_of(labels: Seq<Seq<u8>>, first: bool) -> Seq<char>
    decreases labels.len(),
{
    if labels.len() == 0 {
        Seq::empty()
    } else {
        delimiter(first) + label_text(labels[0]) + text_of(labels.drop_first(), false)
    }
}

/// The text of a name with these labels: each label decoded, dots between.
pub open spec fn name_text(labels: Seq<Seq<u8>>) -> Seq<char> {
    text_of(labels, true)
}

/// A name put together from labels without dots falls apart into the same
/// labels.
pub proof fn lemma_labels_of_joined(list: Seq<Seq<u8>>)
    requires
        list.len() >= 1,
        forall|i: int| 0 <= i < list.len() ==> dot_free(#[trigger] list[i]),
    ensures
        labels(joined(list)) == list,
    decreases list.len(),
{
    let name = joined(list);
    let head = list[0];
    assert(dot_free(head));
    assert(name.skip(0) =~= name);
    if list.len() == 1 {
        lemma_first_label_len(name, 0, name.len() as int);
        assert(labels(name) =~= list);
    } else {
        let others = list.drop_first();
        assert forall|i: int| 0 <= i < others.len() implies dot_free(#[trigger] others[i]) by {
            assert(others[i] == list[i + 1]);
        }
        lemma_labels_of_joined(others);
        lemma_first_label_len(name, 0, head.len() as int);
        assert(name.take(head.len() as int) =~= head);
        assert(name.skip(head.len() as int + 1) =~= joined(others));
        assert(seq![head] + others =~= list);
    }
}

/// Reading what encoding has emitted for labels that all fit and of which
/// none is empty, wherever in the storage it stands: every label is met
/// again, the closing zero ends the name, and nothing is taken for a
/// pointer.
pub proof fn lemma_read_emitted(
    bytes: Seq<u8>,
    pos: nat,
    jumps: nat,
    cursor: nat,
    first: bool,
    list: Seq<Seq<u8>>,
)
    requires
        bytes.len() == PACKET_TRANSPORT_LIMIT,
        jumps <= MAX_JUMPS,
        all_fit(list),
        none_empty(list),
        pos + emitted(list).len() <= PACKET_TRANSPORT_LIMIT,
        bytes.subrange(pos as int, (pos + emitted(list).len()) as int) == emitted(list),
    ensures
        read_name(bytes, pos, jumps, cursor, first) == (NameReading {
            text: text_of(list, first),
            cursor: if jumps == 0 {
                pos + emitted(list).len()
            } else {
                cursor
            },
            outcome: Ok(()),
        }),
    decreases list.len(),
{
    let wire = emitted(list);
    assert(bytes[pos as int] == wire[0]);
    if list.len() > 0 {
        let head = list[0];
        let others = list.drop_first();
        assert(head.len() <= MAX_LABEL_LENGTH && head.len() > 0);
        let end = pos + 1 + head.len();
        assert(wire == label_wire(head) + emitted(others));
        assert(bytes.subrange(pos as int + 1, end as int) =~= head) by {
            assert forall|i: int| 0 <= i < head.len() implies bytes[pos + 1 + i] == head[i] by {
                assert(bytes[pos + 1 + i] == wire[1 + i]);
            }
        }
        assert(bytes.subrange(end as int, (end + emitted(others).len()) as int) =~= emitted(
            others,
        )) by {
            assert forall|i: int| 0 <= i < emitted(others).len() implies bytes[end + i] == emitted(
                others,
            )[i] by {
                assert(bytes[end + i] == wire[1 + head.len() + i]);
            }
        }
        assert(all_fit(others) && none_empty(others)) by {
            assert forall|i: int| 0 <= i < others.len() implies (#[trigger] others[i]).len()
                <= MAX_LABEL_LENGTH && others[i].len() > 0 by {
                assert(others[i] == list[i + 1]);
            }
        }
        assert(emitted(others).len() >= 1);
        lemma_read_emitted(bytes, end as nat, jumps, cursor, false, others);
    }
}

/// A label that is the encoding of a text is decoded to that text in lower
/// case.
pub proof fn lemma_encoded_label_text(chars: Seq<char>)
    ensures
        label_text(encode_utf8(chars)) == lowercase(chars),
{
    encode_utf8_valid_utf8(chars);
    encode_utf8_decode_utf8(chars);
}

/// The text of an all-ASCII label is the label with its capitals made
/// small.
pub proof fn lemma_ascii_label_text(chars: Seq<char>)
    requires
        is_ascii_chars(chars),
    ensures
        label_text(encode_utf8(chars)) == ascii_lowercase(chars),
{
    lemma_encoded_label_text(chars);
}

/// An all-ASCII name, taken apart into labels and put together again as
/// text, is the name with its capitals made small.
pub proof fn lemma_ascii_name_text(name: Seq<char>)
    requires
        is_ascii_chars(name),
    ensures
        name_text(labels(encode_utf8(name))) == ascii_lowercase(name),
{
    lemma_ascii_text_of(name, true);
    assert(delimiter(true) + ascii_lowercase(name) =~= ascii_lowercase(name));
}

/// The same for a name that is the rest of another and so has a dot before
/// it.
proof fn lemma_ascii_text_of(name: Seq<char>, first: bool)
    requires
        is_ascii_chars(name),
    ensures
        text_of(labels(encode_utf8(name)), first) == delimiter(first) + ascii_lowercase(name),
    decreases name.len(),
{
    let bytes = encode_utf8(name);
    is_ascii_chars_encode_utf8(name);
    let k = first_label_len(bytes) as int;
    lemma_first_label_len_bounds(bytes);
    assert(text_of(Seq::<Seq<u8>>::empty(), false) =~= Seq::<char>::empty());
    if k >= bytes.len() {
        lemma_ascii_label_text(name);
        assert(seq![bytes].drop_first() =~= Seq::<Seq<u8>>::empty());
        assert(text_of(seq![bytes], first) =~= delimiter(first) + ascii_lowercase(name));
    } else {
        let head = name.take(k);
        let tail = name.skip(k + 1);
        is_ascii_chars_encode_utf8(head);
        is_ascii_chars_encode_utf8(tail);
        assert(bytes.take(k) =~= encode_utf8(head));
        assert(bytes.skip(k + 1) =~= encode_utf8(tail));
        lemma_ascii_label_text(head);
        lemma_ascii_text_of(tail, false);
        let list = seq![bytes.take(k)] + labels(bytes.skip(k + 1));
        assert(list.drop_first() =~= labels(bytes.skip(k + 1)));
        assert(name[k] as u8 == DOT);
        assert(name[k] == '.');
        assert(ascii_lower('.') == '.');
        assert(ascii_lowercase(name) =~= ascii_lowercase(head) + seq!['.'] + ascii_lowercase(tail));
        assert(text_of(list, first) =~= delimiter(first) + ascii_lowercase(name));
    }
}

/// A name that was encoded is decoded to its own text in lower case.
///
/// Let `name` have labels of at most `MAX_LABEL_LENGTH` bytes, none of them
/// empty unless the name itself is, and let its encoding fit behind the
/// cursor of `v`. Then reading the buffer that the encoding leaves, from
/// where the encoding began, succeeds and yields the name's labels in lower
/// case with dots between them: for an all-ASCII name, the name itself with
/// its capitals made small. Unless the name is empty, the cursor is left
/// where the encoding ended.
pub proof fn lemma_decode_encode(v: PacketView, name: Seq<char>)
    requires
        v.wf(),
        all_fit(labels(encode_utf8(name))),
        none_empty(labels(encode_utf8(name))) || name.len() == 0,
        emitted(labels(encode_utf8(name))).len() <= v.room(),
    ensures
        ({
            let list = labels(encode_utf8(name));
            let after = v.written(emitted(list));
            let back = read_name(after.bytes, v.cursor, 0, v.cursor, true);
            &&& back.outcome == Ok::<(), CodecError>(())
            &&& back.text == name_text(list)
            &&& is_ascii_chars(name) ==> back.text == ascii_lowercase(name)
            &&& name.len() > 0 ==> back.cursor == after.cursor
        }),
{
    let list = labels(encode_utf8(name));
    let wire = emitted(list);
    let after = v.written(wire);
    if is_ascii_chars(name) {
        lemma_ascii_name_text(name);
    }
    if name.len() == 0 {
        assert(encode_utf8(name) =~= Seq::<u8>::empty());
        assert(list =~= seq![Seq::<u8>::empty()]);
        assert(list.drop_first() =~= Seq::<Seq<u8>>::empty());
        assert(emitted(Seq::<Seq<u8>>::empty()) =~= seq![0u8]);
        assert(text_of(Seq::<Seq<u8>>::empty(), false) =~= Seq::<char>::empty());
        assert(wire =~= seq![0u8, 0u8]);
        assert(after.bytes[v.cursor as int] == 0u8);
        lemma_ascii_label_text(Seq::<char>::empty());
        assert(name_text(list) =~= Seq::<char>::empty());
    } else {
        assert(after.bytes.subrange(v.cursor as int, (v.cursor + wire.len()) as int) =~= wire);
        lemma_read_emitted(after.bytes, v.cursor, 0, v.cursor, true, list);
    }
}

/// The same for a name given by its labels. Let the labels hold no dot, be
/// neither empty nor longer than `MAX_LABEL_LENGTH`, and let `name` be the
/// text whose bytes are these labels with dots between them. Then the name is
/// encoded label by label as given, and is read back as the texts of these
/// labels with dots between them.
pub proof fn lemma_decode_encode_labels(v: PacketView, name: Seq<char>, list: Seq<Seq<u8>>)
    requires
        v.wf(),
        list.len() >= 1,
        forall|i: int| 0 <= i < list.len() ==> dot_free(#[trigger] list[i]),
        all_fit(list),
        none_empty(list),
        encode_utf8(name) == joined(list),
        emitted(list).len() <= v.room(),
    ensures
        labels(encode_utf8(name)) == list,
        ({
            let after = v.written(emitted(list));
            read_name(after.bytes, v.cursor, 0, v.cursor, true) == (NameReading {
                text: name_text(list),
                cursor: after.cursor,
                outcome: Ok(()),
            })
        }),
{
    lemma_labels_of_joined(list);
    let wire = emitted(list);
    let after = v.written(wire);
    assert(after.bytes.subrange(v.cursor as int, (v.cursor + wire.len()) as int) =~= wire);
    lemma_read_emitted(after.bytes, v.cursor, 0, v.cursor, true, list);
}

} // verus!
