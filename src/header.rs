//! The fixed 12-byte message header.
use vstd::prelude::*;
use crate::wire::{be16, push_u16, read_u16, u16_at, WireError};

verus! {

/// The message header: an id, the flag bits and the four section counts.
#[derive(Debug, Clone, Copy, PartialEq, Eq, Structural)]
pub struct DNSHeader {
    pub id: u16,
    pub flags: u16,
    pub num_questions: u16,
    pub num_answers: u16,
    pub num_authorities: u16,
    pub num_additionals: u16,
}

/// The length of a header on the wire.
pub const HEADER_LEN: usize = 12;

/// The six fields of `h`, two big-endian bytes each, in order.
pub open spec fn header_wire(h: DNSHeader) -> Seq<u8> {
    be16(h.id) + be16(h.flags) + be16(h.num_questions) + be16(h.num_answers) + be16(
        h.num_authorities,
    ) + be16(h.num_additionals)
}

/// The header that the 12 bytes at `pos` hold, and the position after them.
pub open spec fn header_at(data: Seq<u8>, pos: int) -> Result<(DNSHeader, int), WireError> {
    if pos < 0 || pos + 12 > data.len() {
        Err(WireError::UnexpectedEnd)
    } else {
        Ok(
            (
                DNSHeader {
                    id: u16_at(data, pos),
                    flags: u16_at(data, pos + 2),
                    num_questions: u16_at(data, pos + 4),
                    num_answers: u16_at(data, pos + 6),
                    num_authorities: u16_at(data, pos + 8),
                    num_additionals: u16_at(data, pos + 10),
                },
                pos + 12,
            ),
        )
    }
}

impl DNSHeader {
    /// A header with the given id and flags and all counts zero.
    pub fn new(id: u16, flags: u16) -> (r: DNSHeader)
        ensures
            r == (DNSHeader {
                id,
                flags,
                num_questions: 0,
                num_answers: 0,
                num_authorities: 0,
                num_additionals: 0,
            }),
    {
        DNSHeader {
            id,
            flags,
            num_questions: 0,
            num_answers: 0,
            num_authorities: 0,
            num_additionals: 0,
        }
    }

    /// The 12 bytes of the header on the wire.
    pub fn to_be_bytes(&self) -> (r: Vec<u8>)
        ensures
            r@ == header_wire(*self),
    {
        let mut bytes: Vec<u8> = Vec::with_capacity(HEADER_LEN);
        push_u16(&mut bytes, self.id);
        push_u16(&mut bytes, self.flags);
        push_u16(&mut bytes, self.num_questions);
        push_u16(&mut bytes, self.num_answers);
        push_u16(&mut bytes, self.num_authorities);
        push_u16(&mut bytes, self.num_additionals);
        proof {
            assert(bytes@ =~= header_wire(*self));
        }
        bytes
    }

    /// Reads the header at `pos`; gives it and the position after it.
    pub fn parse_header(data: &[u8], pos: usize) -> (r: Result<(DNSHeader, usize), WireError>)
        ensures
            match header_at(data@, pos as int) {
                Ok((h, e)) => r == Ok::<(DNSHeader, usize), WireError>((h, e as usize)),
                Err(x) => r == Err::<(DNSHeader, usize), WireError>(x),
            },
    {
        if pos >= data.len() || data.len() - pos < HEADER_LEN {
            return Err(WireError::UnexpectedEnd);
        }
        let (id, p) = read_u16(data, pos)?;
        let (flags, p) = read_u16(data, p)?;
        let (num_questions, p) = read_u16(data, p)?;
        let (num_answers, p) = read_u16(data, p)?;
        let (num_authorities, p) = read_u16(data, p)?;
        let (num_additionals, p) = read_u16(data, p)?;
        Ok(
            (
                DNSHeader {
                    id,
                    flags,
                    num_questions,
                    num_answers,
                    num_authorities,
                    num_additionals,
                },
                p,
            ),
        )
    }
}

/// Reading a header undoes writing it, whatever its field values.
pub proof fn lemma_header_round_trip(h: DNSHeader)
    ensures
        header_at(header_wire(h), 0) == Ok::<(DNSHeader, int), WireError>((h, 12)),
{
    let w = header_wire(h);
    assert(w.len() == 12);
    assert(u16_at(w, 0) == u16_at(be16(h.id), 0));
    assert(u16_at(w, 2) == u16_at(be16(h.flags), 0));
    assert(u16_at(w, 4) == u16_at(be16(h.num_questions), 0));
    assert(u16_at(w, 6) == u16_at(be16(h.num_answers), 0));
    assert(u16_at(w, 8) == u16_at(be16(h.num_authorities), 0));
    assert(u16_at(w, 10) == u16_at(be16(h.num_additionals), 0));
}

} // verus!
