//! Application-level message records as they travel inside a packet payload:
//! a 4-byte header holding the message id and the payload size, both
//! big-endian, followed by the payload bytes.
use vstd::prelude::*;
use vstd::slice::slice_to_vec;
use crate::packet::ParseError;
use crate::packet::be_bytes_of_u16;
use crate::packet::u16_of_be_bytes;

verus! {

pub struct Message {
    pub id: u16,
    pub size: u16,
    pub data: Vec<u8>,
}

/// The bytes of one record with the given header fields and payload.
pub open spec fn message_record(id: u16, size: u16, payload: Seq<u8>) -> Seq<u8> {
    be_bytes_of_u16(id) + be_bytes_of_u16(size) + payload
}

/// The bytes of a well-formed record, whose size field holds the payload
/// length.
pub open spec fn spec_message_bytes(id: u16, payload: Seq<u8>) -> Seq<u8> {
    message_record(id, payload.len() as u16, payload)
}

/// The `(id, payload)` pairs of the records laid head to tail in `s`,
/// stopping cleanly when fewer than 4 bytes remain; `None` when some record's
/// size field runs past the end of the buffer.
pub open spec fn spec_parse_records(s: Seq<u8>) -> Option<Seq<(u16, Seq<u8>)>>
    decreases s.len(),
{
    if s.len() < 4 {
        Some(Seq::empty())
    } else {
        let id = u16_of_be_bytes(s[0], s[1]);
        let size = u16_of_be_bytes(s[2], s[3]);
        if 4 + size > s.len() {
            None
        } else {
            match spec_parse_records(s.skip(4 + size)) {
                Some(rest) => Some(seq![(id, s.subrange(4, 4 + size))] + rest),
                None => None,
            }
        }
    }
}

/// Like `spec_parse_records`, but a record that runs past the end of the
/// buffer simply ends the parse: the records before it are kept.
pub open spec fn spec_parse_records_lossy(s: Seq<u8>) -> Seq<(u16, Seq<u8>)>
    decreases s.len(),
{
    if s.len() < 4 {
        Seq::empty()
    } else {
        let id = u16_of_be_bytes(s[0], s[1]);
        let size = u16_of_be_bytes(s[2], s[3]);
        if 4 + size > s.len() {
            Seq::empty()
        } else {
            seq![(id, s.subrange(4, 4 + size))] + spec_parse_records_lossy(s.skip(4 + size))
        }
    }
}

/// The `(id, payload)` pairs that a list of messages stands for.
pub open spec fn message_models(v: Seq<Message>) -> Seq<(u16, Seq<u8>)> {
    v.map_values(|m: Message| (m.id, m.data@))
}

impl Message {
    pub fn new(id: u16, data: Vec<u8>) -> (r: Self)
        requires
            data@.len() <= u16::MAX,
        ensures
            r.id == id,
            r.size == data@.len(),
            r.data == data,
    {
        let size = data.len() as u16;
        Message { id, data, size }
    }

    pub fn into_vec(self) -> (r: Vec<u8>)
        ensures
            r@ == message_record(self.id, self.size, self.data@),
    {
        message_into_vec(&self)
    }

    pub fn from_slice(slice: &[u8]) -> (r: Result<Vec<Self>, ParseError>)
        ensures
            slice@.len() < 8 ==> (r matches Err(e) && e == ParseError::SliceTooShort),
            slice@.len() >= 8 ==> match spec_parse_records(slice@) {
                Some(recs) => r matches Ok(v) && message_models(v@) == recs && (forall|j: int|
                    0 <= j < v@.len() ==> (#[trigger] v@[j]).size == v@[j].data@.len()),
                None => r matches Err(e) && e == ParseError::RecordTruncated,
            },
    {
        let len = slice.len();

        if len < 8 {
            return Err(ParseError::SliceTooShort);
        }
        let mut vec: Vec<Message> = Vec::new();
        let mut index: usize = 0;

        proof {
            assert(slice@.skip(0) =~= slice@);
            if spec_parse_records(slice@) is Some {
                assert(message_models(vec@) + spec_parse_records(slice@).unwrap()
                    =~= spec_parse_records(slice@).unwrap());
            }
        }

        while index < len && len - index >= 4
            invariant
                len == slice@.len(),
                8 <= len,
                index <= len,
                forall|j: int| 0 <= j < vec@.len() ==> (#[trigger] vec@[j]).size
                    == vec@[j].data@.len(),
                spec_parse_records(slice@) == match spec_parse_records(slice@.skip(index as int)) {
                    Some(rest) => Some(message_models(vec@) + rest),
                    None => None::<Seq<(u16, Seq<u8>)>>,
                },
            decreases len - index,
        {
            let ghost s = slice@.skip(index as int);
            let ghost vec0 = vec@;

            let id = ((slice[index] as u16) << 8) | (slice[index + 1] as u16);
            let size = ((slice[index + 2] as u16) << 8) | (slice[index + 3] as u16);
            proof {
                assert(s[0] == slice@[index as int]);
                assert(s[1] == slice@[index + 1]);
                assert(s[2] == slice@[index + 2]);
                assert(s[3] == slice@[index + 3]);
            }

            if (size as usize) > len - index - 4 {
                proof {
                    assert(spec_parse_records(s) is None);
                }
                return Err(ParseError::RecordTruncated);
            }
            let new_index = index + 4 + size as usize;
            let data = slice_to_vec(&slice[index + 4..new_index]);

            proof {
                assert(data@ =~= s.subrange(4, 4 + size));
                assert(s.skip(4 + size) =~= slice@.skip(new_index as int));
            }

            vec.push(Message { id, size, data });
            index = new_index;

            proof {
                assert(message_models(vec@) =~= message_models(vec0) + seq![
                    (id, s.subrange(4, 4 + size)),
                ]);
                if spec_parse_records(slice@.skip(index as int)) is Some {
                    let rest = spec_parse_records(slice@.skip(index as int)).unwrap();
                    assert(message_models(vec0) + (seq![(id, s.subrange(4, 4 + size))] + rest)
                        =~= message_models(vec@) + rest);
                }
            }
        }

        proof {
            assert(slice@.skip(index as int).len() < 4);
            assert(message_models(vec@) + Seq::<(u16, Seq<u8>)>::empty() =~= message_models(vec@));
        }
        Ok(vec)
    }
}

/// The encoded bytes of one message, leaving the message in place.
pub fn message_into_vec(message: &Message) -> (r: Vec<u8>)
    ensures
        r@ == message_record(message.id, message.size, message.data@),
{
    let mut vec: Vec<u8> = Vec::new();

    vec.push(((message.id >> 8) & 0xff) as u8);
    vec.push((message.id & 0xff) as u8);

    vec.push(((message.size >> 8) & 0xff) as u8);
    vec.push((message.size & 0xff) as u8);

    let mut payload = slice_to_vec(message.data.as_slice());
    vec.append(&mut payload);

    assert(vec@ =~= message_record(message.id, message.size, message.data@));
    vec
}

} // verus!
