//! Reading and writing domain names in a packet buffer.

use crate::byte_packet_buffer::{
    lemma_written_full, lemma_written_twice, BytePacketBuffer, PACKET_TRANSPORT_LIMIT,
};
use crate::error::CodecError;
use crate::name_format::{
    all_fit, delimiter, emitted, label_wire, labels, lemma_first_label_len, lemma_labels_cons,
    name_at, read_name, DOT, MAX_JUMPS, MAX_LABEL_LENGTH,
};
use crate::text::label_string;
use vstd::prelude::*;
use vstd::string::StringExecFns;
use vstd::utf8::encode_utf8;

verus! {

impl BytePacketBuffer {
    /// Decodes the name at the cursor and appends it to `output_str`: its
    /// labels in lower case, joined by dots. Pointers are followed, at most
    /// `MAX_JUMPS` of them. The cursor is left behind the name as it stands
    /// at the cursor: behind its first pointer, or behind its closing zero
    /// where it has none.
    ///
    /// Where decoding fails, `output_str` keeps what the labels before the
    /// failure added to it, and the cursor stands behind the first pointer
    /// if one was met, else where it stood.
    pub fn read_qname(&mut self, output_str: &mut String) -> (r: Result<(), CodecError>)
        ensures
            final(self)@.bytes == old(self)@.bytes,
            final(self)@.cursor == name_at(old(self)@).cursor,
            final(output_str)@ == old(output_str)@ + name_at(old(self)@).text,
            r == name_at(old(self)@).outcome,
    {
        let mut position: usize = self.position();
        let mut jumped = false;
        let mut jumps_performed: usize = 0;
        let mut delim: &str = "";
        let ghost whole = name_at(self@);
        let ghost mut first = true;
        proof {
            reveal_strlit("");
            reveal_strlit(".");
            assert(output_str@ + whole.text =~= old(output_str)@ + whole.text);
        }
        loop
            invariant_except_break
                jumped == (jumps_performed > 0),
                delim@ == delimiter(first),
                ({
                    let rest = read_name(
                        self@.bytes,
                        position as nat,
                        jumps_performed as nat,
                        self@.cursor,
                        first,
                    );
                    &&& output_str@ + rest.text == old(output_str)@ + whole.text
                    &&& rest.cursor == whole.cursor
                    &&& rest.outcome == whole.outcome
                }),
            invariant
                whole == name_at(old(self)@),
                self@.bytes == old(self)@.bytes,
                jumps_performed <= MAX_JUMPS + 1,
                "."@ == seq!['.'],
            ensures
                whole.outcome == Ok::<(), CodecError>(()),
                output_str@ == old(output_str)@ + whole.text,
                whole.cursor == if jumped {
                    self@.cursor
                } else {
                    position as nat
                },
            decreases MAX_JUMPS + 1 - jumps_performed, PACKET_TRANSPORT_LIMIT - position,
        {
            if jumps_performed > MAX_JUMPS {
                assert(output_str@ + Seq::<char>::empty() =~= output_str@);
                return Err(CodecError::TooManyJumps);
            }
            let length = match self.get(position) {
                Ok(b) => b,
                Err(e) => {
                    assert(output_str@ + Seq::<char>::empty() =~= output_str@);
                    return Err(e);
                },
            };
            if (length & 0xC0) == 0xC0 {
                assert((length & 0xC0) == 0xC0 <==> length >= 0xC0) by (bit_vector);
                if !jumped {
                    self.seek(position + 2)?;
                }
                let byte2 = match self.get(position + 1) {
                    Ok(b) => b as u16,
                    Err(e) => {
                        assert(output_str@ + Seq::<char>::empty() =~= output_str@);
                        return Err(e);
                    },
                };
                let offset = (((length as u16) ^ 0xC0) << 8) | byte2;
                assert((((length as u16) ^ 0xC0) << 8) | byte2 == (length - 0xC0) * 0x100 + byte2)
                    by (bit_vector)
                    requires
                        length >= 0xC0,
                        byte2 < 0x100,
                ;
                position = offset as usize;
                jumped = true;
                jumps_performed += 1;
            } else {
                assert((length & 0xC0) == 0xC0 <==> length >= 0xC0) by (bit_vector);
                position += 1;
                if length == 0 {
                    assert(output_str@ + Seq::<char>::empty() =~= output_str@);
                    break ;
                }
                let ghost before = output_str@;
                let ghost rest = read_name(
                    self@.bytes,
                    (position - 1) as nat,
                    jumps_performed as nat,
                    self@.cursor,
                    first,
                );
                output_str.append(delim);
                let label = match self.get_range(position, length as usize) {
                    Ok(str_buffer) => label_string(str_buffer),
                    Err(e) => {
                        return Err(e);
                    },
                };
                output_str.append(label.as_str());
                delim = ".";
                position += length as usize;
                proof {
                    let next = read_name(
                        self@.bytes,
                        position as nat,
                        jumps_performed as nat,
                        self@.cursor,
                        false,
                    );
                    assert(output_str@ + next.text =~= before + rest.text);
                    first = false;
                }
            }
        }
        if !jumped {
            self.seek(position)?;
        }
        Ok(())
    }

    /// Encodes `qname`, given with dots between its labels, at the cursor:
    /// each label behind its length byte, a zero byte at the end; no pointer
    /// is ever written. The labels are told apart in the UTF-8 bytes of the
    /// name. A label of more than `MAX_LABEL_LENGTH` bytes is refused before
    /// any of it is written; the labels before it are in the buffer by then.
    /// Bytes are written one by one, so those that fit are stored even where
    /// the storage ends within the name.
    pub fn write_qname(&mut self, qname: &str) -> (r: Result<(), CodecError>)
        ensures
            final(self)@ == old(self)@.written(emitted(labels(encode_utf8(qname@)))),
            r == if old(self)@.room() < emitted(labels(encode_utf8(qname@))).len() {
                Err::<(), CodecError>(CodecError::BufferOverrun)
            } else if !all_fit(labels(encode_utf8(qname@))) {
                Err::<(), CodecError>(CodecError::LabelTooLong)
            } else {
                Ok::<(), CodecError>(())
            },
    {
        let name = qname.as_bytes();
        let n = name.len();
        let ghost whole = emitted(labels(name@));
        let ghost mut sent = Seq::<u8>::empty();
        let mut start: usize = 0;
        proof {
            assert(name@.skip(0) =~= name@);
            assert(sent + whole =~= whole);
            assert(self@.written(sent).bytes =~= self@.bytes);
        }
        loop
            invariant_except_break
                whole == sent + emitted(labels(name@.skip(start as int))),
                all_fit(labels(name@)) == all_fit(labels(name@.skip(start as int))),
            invariant
                name@ == encode_utf8(qname@),
                n == name@.len(),
                start <= n,
                whole == emitted(labels(name@)),
                self@ == old(self)@.written(sent),
                sent.len() <= old(self)@.room(),
            ensures
                all_fit(labels(name@)),
                whole == sent + seq![0u8],
            decreases n - start,
        {
            let mut end = start;
            while end < n && name[end] != DOT
                invariant
                    n == name@.len(),
                    start <= end <= n,
                    forall|i: int| start <= i < end ==> name@[i] != DOT,
                decreases n - end,
            {
                end += 1;
            }
            let ghost rest = name@.skip(start as int);
            let ghost label = name@.subrange(start as int, end as int);
            let ghost others = if end < n {
                labels(name@.skip(end + 1))
            } else {
                Seq::empty()
            };
            proof {
                lemma_first_label_len(name@, start as int, end as int);
                assert(label =~= rest.take(end - start));
                if end < n {
                    assert(rest.skip(end - start + 1) =~= name@.skip(end + 1));
                } else {
                    assert(label =~= rest);
                    assert(seq![label] + others =~= seq![label]);
                }
                assert(labels(rest) == seq![label] + others);
                lemma_labels_cons(label, others);
            }
            if end - start > MAX_LABEL_LENGTH {
                proof {
                    assert(sent + Seq::<u8>::empty() =~= sent);
                }
                return Err(CodecError::LabelTooLong);
            }
            proof {
                lemma_written_twice(old(self)@, sent, label_wire(label));
                lemma_written_full(old(self)@, sent + label_wire(label), emitted(others));
                assert(whole =~= sent + label_wire(label) + emitted(others));
                sent = sent + label_wire(label);
            }
            self.write_label(name, start, end)?;
            if end == n {
                break ;
            }
            start = end + 1;
        }
        proof {
            lemma_written_twice(old(self)@, sent, seq![0u8]);
        }
        self.write_u8(0)?;
        Ok(())
    }

    /// Writes the bytes of `name` from `start` up to `end` as one label:
    /// their number, then the bytes themselves.
    fn write_label(&mut self, name: &[u8], start: usize, end: usize) -> (r: Result<(), CodecError>)
        requires
            start <= end <= name@.len(),
            end - start <= MAX_LABEL_LENGTH,
        ensures
            final(self)@ == old(self)@.written(
                label_wire(name@.subrange(start as int, end as int)),
            ),
            r == if old(self)@.room() >= 1 + (end - start) {
                Ok::<(), CodecError>(())
            } else {
                Err::<(), CodecError>(CodecError::BufferOverrun)
            },
    {
        let len = end - start;
        let ghost wire = label_wire(name@.subrange(start as int, end as int));
        let ghost mut sent = seq![len as u8];
        proof {
            assert(wire =~= sent + wire.skip(1));
            lemma_written_full(self@, sent, wire.skip(1));
        }
        self.write_u8(len as u8)?;
        let mut k = start;
        while k < end
            invariant
                start <= k <= end <= name@.len(),
                wire == label_wire(name@.subrange(start as int, end as int)),
                sent == wire.take(1 + k - start),
                self@ == old(self)@.written(sent),
                sent.len() <= old(self)@.room(),
            decreases end - k,
        {
            proof {
                let next = sent + seq![name@[k as int]];
                assert(next =~= wire.take(2 + k - start));
                assert(wire =~= next + wire.skip(2 + k - start));
                lemma_written_twice(old(self)@, sent, seq![name@[k as int]]);
                lemma_written_full(old(self)@, next, wire.skip(2 + k - start));
                sent = next;
            }
            self.write_u8(name[k])?;
            k += 1;
        }
        proof {
            assert(sent =~= wire);
        }
        Ok(())
    }
}

} // verus!
