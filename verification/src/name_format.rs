//! The format of domain names, as mathematics: how a name in text form falls
//! into labels, what encoding sends to the buffer for them, and what decoding
//! makes of the bytes in a buffer.

use crate::byte_packet_buffer::{PacketView, PACKET_TRANSPORT_LIMIT};
use crate::error::CodecError;
use crate::text::label_text;
use vstd::prelude::*;

verus! {

/// The byte that separates the labels of a name in its text form.
pub const DOT: u8 = 0x2E;

/// The longest label that can be encoded.
pub const MAX_LABEL_LENGTH: usize = 0x3F;

/// How many compression pointers the decoder follows for one name.
pub const MAX_JUMPS: usize = 5;

/// Whether no byte of `bytes` is the dot.
pub open spec fn dot_free(bytes: Seq<u8>) -> bool {
    forall|i: int| 0 <= i < bytes.len() ==> bytes[i] != DOT
}

/// How many bytes of `name` stand before its first dot, or in all of it
/// where it has none.
pub open spec fn first_label_len(name: Seq<u8>) -> nat
    decreases name.len(),
{
    if name.len() == 0 || name[0] == DOT {
        0
    } else {
        1 + first_label_len(name.drop_first())
    }
}

/// The labels of a name given as bytes: the stretches between its dots, in
/// order. A name with `k` dots has `k + 1` labels, some of which may be
/// empty; the empty name has one empty label.
pub open spec fn labels(name: Seq<u8>) -> Seq<Seq<u8>>
    decreases name.len(),
{
    let k = first_label_len(name) as int;
    if k >= name.len() {
        seq![name]
    } else {
        seq![name.take(k)] + labels(name.skip(k + 1))
    }
}

/// Whether every label is short enough for a length byte.
pub open spec fn all_fit(labels: Seq<Seq<u8>>) -> bool {
    forall|i: int| 0 <= i < labels.len() ==> (#[trigger] labels[i]).len() <= MAX_LABEL_LENGTH
}

/// A label on the wire: its length, then its bytes.
pub open spec fn label_wire(label: Seq<u8>) -> Seq<u8> {
    seq![label.len() as u8] + label
}

/// Labels on the wire one after another, with nothing behind the last.
pub open spec fn wire_of(labels: Seq<Seq<u8>>) -> Seq<u8>
    decreases labels.len(),
{
    if labels.len() == 0 {
        Seq::empty()
    } else {
        label_wire(labels[0]) + wire_of(labels.drop_first())
    }
}

/// What encoding a list of labels sends to the buffer: the labels on the
/// wire one after another and a zero byte behind the last; but nothing from
/// the first label on that is too long.
pub open spec fn emitted(labels: Seq<Seq<u8>>) -> Seq<u8>
    decreases labels.len(),
{
    if labels.len() == 0 {
        seq![0u8]
    } else if labels[0].len() > MAX_LABEL_LENGTH {
        Seq::empty()
    } else {
        label_wire(labels[0]) + emitted(labels.drop_first())
    }
}

/// Whether a byte at the place of a length opens a compression pointer: its
/// two highest bits are set.
pub open spec fn is_pointer(b: u8) -> bool {
    b >= 0xC0
}

/// The offset that the two bytes of a pointer name: the low six bits of the
/// first and all of the second.
pub open spec fn pointer_target(b0: u8, b1: u8) -> nat {
    ((b0 - 0xC0) * 0x100 + b1) as nat
}

/// What stands before a label in the text: nothing before the first, a dot
/// before every other.
pub open spec fn delimiter(first: bool) -> Seq<char> {
    if first {
        Seq::empty()
    } else {
        seq!['.']
    }
}

/// What decoding a name comes to.
pub struct NameReading {
    /// The characters added to the output. They are added label by label,
    /// so a failed reading leaves those of the labels before the failure,
    /// and the dot behind them where the next label was found to run out of
    /// the storage.
    pub text: Seq<char>,
    /// Where the buffer's cursor stands afterwards.
    pub cursor: nat,
    /// Whether the name was read to its end.
    pub outcome: Result<(), CodecError>,
}

/// Reading on from `pos`, after `jumps` pointers were followed, with the
/// buffer's cursor at `cursor`; `first` says that no label was met yet.
///
/// A byte with its two highest bits set opens a pointer, and reading goes on
/// at its target; one pointer more than `MAX_JUMPS` ends the reading. The
/// first pointer of a name fixes the cursor behind itself. Any other byte is
/// the length of a label, zero ending the name, so a label in a buffer may
/// be longer than one that can be encoded. A name without a pointer leaves
/// the cursor behind its closing zero. Every byte looked at must lie in the
/// storage, and a label must leave at least one byte of the storage behind
/// it.
pub open spec fn read_name(
    bytes: Seq<u8>,
    pos: nat,
    jumps: nat,
    cursor: nat,
    first: bool,
) -> NameReading
    decreases MAX_JUMPS + 1 - jumps, PACKET_TRANSPORT_LIMIT - pos,
{
    if jumps > MAX_JUMPS {
        NameReading { text: Seq::empty(), cursor, outcome: Err(CodecError::TooManyJumps) }
    } else if pos >= PACKET_TRANSPORT_LIMIT {
        NameReading { text: Seq::empty(), cursor, outcome: Err(CodecError::BufferOverrun) }
    } else if is_pointer(bytes[pos as int]) {
        let resume = if jumps == 0 {
            pos + 2
        } else {
            cursor
        };
        if pos + 1 >= PACKET_TRANSPORT_LIMIT {
            NameReading {
                text: Seq::empty(),
                cursor: resume,
                outcome: Err(CodecError::BufferOverrun),
            }
        } else {
            read_name(
                bytes,
                pointer_target(bytes[pos as int], bytes[pos as int + 1]),
                jumps + 1,
                resume,
                first,
            )
        }
    } else if bytes[pos as int] == 0 {
        NameReading {
            text: Seq::empty(),
            cursor: if jumps == 0 {
                pos + 1
            } else {
                cursor
            },
            outcome: Ok(()),
        }
    } else {
        let start = pos as int + 1;
        let end = start + bytes[pos as int];
        if end >= PACKET_TRANSPORT_LIMIT {
            NameReading { text: delimiter(first), cursor, outcome: Err(CodecError::BufferOverrun) }
        } else {
            let rest = read_name(bytes, end as nat, jumps, cursor, false);
            NameReading {
                text: delimiter(first) + label_text(bytes.subrange(start, end)) + rest.text,
                cursor: rest.cursor,
                outcome: rest.outcome,
            }
        }
    }
}

/// Reading the name that starts at the cursor of `v`.
pub open spec fn name_at(v: PacketView) -> NameReading {
    read_name(v.bytes, v.cursor, 0, v.cursor, true)
}

/// The first label of the rest of a name from `start` on ends at the next
/// dot, or with the name.
pub proof fn lemma_first_label_len(name: Seq<u8>, start: int, end: int)
    requires
        0 <= start <= end <= name.len(),
        forall|i: int| start <= i < end ==> name[i] != DOT,
        end == name.len() || name[end] == DOT,
    ensures
        first_label_len(name.skip(start)) == end - start,
    decreases end - start,
{
    let rest = name.skip(start);
    if start < end {
        assert(rest.drop_first() =~= name.skip(start + 1));
        lemma_first_label_len(name, start + 1, end);
    }
}

/// The first label ends within the name, and at a dot where it ends before
/// the name does.
pub proof fn lemma_first_label_len_bounds(name: Seq<u8>)
    ensures
        first_label_len(name) <= name.len(),
        first_label_len(name) < name.len() ==> name[first_label_len(name) as int] == DOT,
    decreases name.len(),
{
    if name.len() > 0 && name[0] != DOT {
        lemma_first_label_len_bounds(name.drop_first());
    }
}

/// What a first label adds to the emitted bytes and to the length check of
/// the labels behind it.
pub proof fn lemma_labels_cons(label: Seq<u8>, others: Seq<Seq<u8>>)
    ensures
        emitted(seq![label] + others) == if label.len() > MAX_LABEL_LENGTH {
            Seq::empty()
        } else {
            label_wire(label) + emitted(others)
        },
        all_fit(seq![label] + others) == (label.len() <= MAX_LABEL_LENGTH && all_fit(others)),
{
    let all = seq![label] + others;
    assert(all.drop_first() =~= others);
    assert(all[0] == label);
    if all_fit(all) {
        assert forall|i: int| 0 <= i < others.len() implies (#[trigger] others[i]).len()
            <= MAX_LABEL_LENGTH by {
            assert(all[i + 1] == others[i]);
        }
    }
}

/// Where every label fits, encoding emits all of them and the closing zero.
pub proof fn lemma_emitted_all_fit(list: Seq<Seq<u8>>)
    requires
        all_fit(list),
    ensures
        emitted(list) == wire_of(list) + seq![0u8],
    decreases list.len(),
{
    if list.len() == 0 {
        assert(emitted(list) =~= wire_of(list) + seq![0u8]);
    } else {
        let others = list.drop_first();
        assert forall|i: int| 0 <= i < others.len() implies (#[trigger] others[i]).len()
            <= MAX_LABEL_LENGTH by {
            assert(others[i] == list[i + 1]);
        }
        lemma_emitted_all_fit(others);
        assert(emitted(list) =~= wire_of(list) + seq![0u8]);
    }
}

/// Where the label at `k` is the first that is too long, encoding emits the
/// labels before it and nothing else: no byte of that label, none of a later
/// one, and no closing zero.
pub proof fn lemma_emitted_until_too_long(list: Seq<Seq<u8>>, k: int)
    requires
        0 <= k < list.len(),
        all_fit(list.take(k)),
        list[k].len() > MAX_LABEL_LENGTH,
    ensures
        emitted(list) == wire_of(list.take(k)),
        !all_fit(list),
    decreases k,
{
    if k == 0 {
        assert(wire_of(list.take(0)) =~= Seq::<u8>::empty());
    } else {
        let others = list.drop_first();
        assert(list.take(k)[0] == list[0]);
        assert(list.take(k).drop_first() =~= others.take(k - 1));
        assert forall|i: int| 0 <= i < k - 1 implies (#[trigger] others.take(k - 1)[i]).len()
            <= MAX_LABEL_LENGTH by {
            assert(others.take(k - 1)[i] == list.take(k)[i + 1]);
        }
        lemma_emitted_until_too_long(others, k - 1);
    }
}

/// The encoding of a name whose labels all fit is two bytes longer than the
/// name: a length byte takes the place of each dot, one more stands before
/// the first label, and the zero closes the name.
pub proof fn lemma_emitted_len(name: Seq<u8>)
    requires
        all_fit(labels(name)),
    ensures
        emitted(labels(name)).len() == name.len() + 2,
    decreases name.len(),
{
    let k = first_label_len(name) as int;
    lemma_first_label_len_bounds(name);
    if k >= name.len() {
        lemma_labels_cons(name, Seq::empty());
        assert(seq![name] + Seq::<Seq<u8>>::empty() =~= seq![name]);
        assert(emitted(Seq::<Seq<u8>>::empty()) =~= seq![0u8]);
    } else {
        let others = labels(name.skip(k + 1));
        lemma_labels_cons(name.take(k), others);
        lemma_emitted_len(name.skip(k + 1));
    }
}

} // verus!
