//! Where the pointers of a name lead: a name is refused exactly when reading
//! it comes to one pointer more than the decoder follows, and no pointer
//! takes the cursor out of the storage.

use crate::byte_packet_buffer::{PacketView, PACKET_TRANSPORT_LIMIT};
use crate::error::CodecError;
use crate::name_format::{is_pointer, name_at, pointer_target, read_name, MAX_JUMPS};
use vstd::prelude::*;

verus! {

/// Whether reading a name on from `pos` comes to `n` pointers, each with
/// both of its bytes in the storage, before the name ends or a label runs
/// out of the storage.
pub open spec fn meets_pointers(bytes: Seq<u8>, pos: nat, n: nat) -> bool
    decreases n, PACKET_TRANSPORT_LIMIT - pos,
{
    if n == 0 {
        true
    } else if pos >= PACKET_TRANSPORT_LIMIT {
        false
    } else if is_pointer(bytes[pos as int]) {
        pos + 1 < PACKET_TRANSPORT_LIMIT && meets_pointers(
            bytes,
            pointer_target(bytes[pos as int], bytes[pos as int + 1]),
            (n - 1) as nat,
        )
    } else {
        let end = pos + 1 + bytes[pos as int];
        bytes[pos as int] != 0 && end < PACKET_TRANSPORT_LIMIT && meets_pointers(
            bytes,
            end as nat,
            n,
        )
    }
}

/// After `jumps` pointers, reading fails for the number of pointers exactly
/// when as many pointers lie ahead as make one more than `MAX_JUMPS` in
/// all. No reading fails for the length of a label.
pub proof fn lemma_too_many_jumps(bytes: Seq<u8>, pos: nat, jumps: nat, cursor: nat, first: bool)
    requires
        jumps <= MAX_JUMPS + 1,
    ensures
        read_name(bytes, pos, jumps, cursor, first).outcome == Err::<(), CodecError>(
            CodecError::TooManyJumps,
        ) <==> meets_pointers(bytes, pos, (MAX_JUMPS + 1 - jumps) as nat),
        read_name(bytes, pos, jumps, cursor, first).outcome != Err::<(), CodecError>(
            CodecError::LabelTooLong,
        ),
    decreases MAX_JUMPS + 1 - jumps, PACKET_TRANSPORT_LIMIT - pos,
{
    if jumps > MAX_JUMPS {
    } else if pos >= PACKET_TRANSPORT_LIMIT {
    } else if is_pointer(bytes[pos as int]) {
        if pos + 1 < PACKET_TRANSPORT_LIMIT {
            let resume = if jumps == 0 {
                pos + 2
            } else {
                cursor
            };
            lemma_too_many_jumps(
                bytes,
                pointer_target(bytes[pos as int], bytes[pos as int + 1]),
                jumps + 1,
                resume,
                first,
            );
        }
    } else if bytes[pos as int] != 0 {
        let end = pos + 1 + bytes[pos as int];
        if end < PACKET_TRANSPORT_LIMIT {
            lemma_too_many_jumps(bytes, end as nat, jumps, cursor, false);
        }
    }
}

/// Decoding the name at the cursor fails with `TooManyJumps` exactly when
/// it comes to more than `MAX_JUMPS` pointers.
pub proof fn lemma_pointer_limit(v: PacketView)
    ensures
        name_at(v).outcome == Err::<(), CodecError>(CodecError::TooManyJumps) <==> meets_pointers(
            v.bytes,
            v.cursor,
            (MAX_JUMPS + 1) as nat,
        ),
{
    lemma_too_many_jumps(v.bytes, v.cursor, 0, v.cursor, true);
}

/// A name that is read to its end leaves the cursor in the storage or at its
/// end, wherever its pointers lead.
pub proof fn lemma_read_name_in_bounds(
    bytes: Seq<u8>,
    pos: nat,
    jumps: nat,
    cursor: nat,
    first: bool,
)
    requires
        jumps > 0 ==> cursor <= PACKET_TRANSPORT_LIMIT,
    ensures
        read_name(bytes, pos, jumps, cursor, first).outcome is Ok ==> read_name(
            bytes,
            pos,
            jumps,
            cursor,
            first,
        ).cursor <= PACKET_TRANSPORT_LIMIT,
    decreases MAX_JUMPS + 1 - jumps, PACKET_TRANSPORT_LIMIT - pos,
{
    if jumps > MAX_JUMPS {
    } else if pos >= PACKET_TRANSPORT_LIMIT {
    } else if is_pointer(bytes[pos as int]) {
        if pos + 1 < PACKET_TRANSPORT_LIMIT {
            let resume = if jumps == 0 {
                pos + 2
            } else {
                cursor
            };
            lemma_read_name_in_bounds(
                bytes,
                pointer_target(bytes[pos as int], bytes[pos as int + 1]),
                jumps + 1,
                resume,
                first,
            );
        }
    } else if bytes[pos as int] != 0 {
        let end = pos + 1 + bytes[pos as int];
        if end < PACKET_TRANSPORT_LIMIT {
            lemma_read_name_in_bounds(bytes, end as nat, jumps, cursor, false);
        }
    }
}

/// Decoding a name with success leaves the cursor in the storage or at its
/// end.
pub proof fn lemma_name_at_in_bounds(v: PacketView)
    ensures
        name_at(v).outcome is Ok ==> name_at(v).cursor <= PACKET_TRANSPORT_LIMIT,
{
    lemma_read_name_in_bounds(v.bytes, v.cursor, 0, v.cursor, true);
}

/// Two pointers that name each other are refused: decoding a name that
/// starts at either fails with `TooManyJumps`.
pub proof fn lemma_pointer_cycle(v: PacketView, other: nat)
    requires
        v.cursor + 1 < PACKET_TRANSPORT_LIMIT,
        other + 1 < PACKET_TRANSPORT_LIMIT,
        is_pointer(v.bytes[v.cursor as int]),
        pointer_target(v.bytes[v.cursor as int], v.bytes[v.cursor as int + 1]) == other,
        is_pointer(v.bytes[other as int]),
        pointer_target(v.bytes[other as int], v.bytes[other as int + 1]) == v.cursor,
    ensures
        name_at(v).outcome == Err::<(), CodecError>(CodecError::TooManyJumps),
{
    reveal_with_fuel(meets_pointers, 7);
    lemma_pointer_limit(v);
}

} // verus!
