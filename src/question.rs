//! The question section: one queried name with its type and class.
use vstd::prelude::*;
use crate::encoding::{decode_name_simple, simple_name_text};
use crate::wire::{be16, push_slice, push_u16, read_u16, u16_at, WireError};

verus! {

/// A question: the name in wire form, the queried type and the class.
#[derive(Debug)]
pub struct DNSQuestion {
    pub name: Vec<u8>,
    pub qtype: u16,
    pub class: u16,
}

/// What a question holds.
pub struct QuestionView {
    pub name: Seq<u8>,
    pub qtype: u16,
    pub class: u16,
}

impl View for DNSQuestion {
    type V = QuestionView;

    open spec fn view(&self) -> QuestionView {
        QuestionView { name: self.name@, qtype: self.qtype, class: self.class }
    }
}

/// The wire form of a question: the name's bytes, the type, the class.
pub open spec fn question_wire(q: QuestionView) -> Seq<u8> {
    q.name + be16(q.qtype) + be16(q.class)
}

/// The question at `pos`, and the position after it. Its name is read without
/// compression and kept in wire form.
pub open spec fn question_at(data: Seq<u8>, pos: int) -> Result<(QuestionView, int), WireError> {
    match simple_name_text(data, pos) {
        Ok((_, e)) => if e + 4 > data.len() {
            Err(WireError::UnexpectedEnd)
        } else {
            Ok(
                (
                    QuestionView {
                        name: data.subrange(pos, e),
                        qtype: u16_at(data, e),
                        class: u16_at(data, e + 2),
                    },
                    e + 4,
                ),
            )
        },
        Err(x) => Err(x),
    }
}

impl DNSQuestion {
    /// The question on the wire.
    pub fn to_be_bytes(&self) -> (r: Vec<u8>)
        ensures
            r@ == question_wire(self@),
    {
        let mut bytes: Vec<u8> = Vec::new();
        push_slice(&mut bytes, self.name.as_slice(), 0, self.name.len());
        push_u16(&mut bytes, self.qtype);
        push_u16(&mut bytes, self.class);
        proof {
            assert(self.name@.subrange(0, self.name@.len() as int) =~= self.name@);
        }
        bytes
    }

    /// Reads the question at `pos`; gives it and the position after it.
    pub fn parse_question(data: &[u8], pos: usize) -> (r: Result<(DNSQuestion, usize), WireError>)
        ensures
            match question_at(data@, pos as int) {
                Ok((q, e)) => r is Ok && r->Ok_0.0@ == q && r->Ok_0.1 as int == e,
                Err(x) => r == Err::<(DNSQuestion, usize), WireError>(x),
            },
    {
        let (_, end) = match decode_name_simple(data, pos) {
            Ok(v) => v,
            Err(x) => {
                return Err(x);
            },
        };
        if end >= data.len() || data.len() - end < 4 {
            return Err(WireError::UnexpectedEnd);
        }
        let mut name: Vec<u8> = Vec::new();
        push_slice(&mut name, data, pos, end);
        let (qtype, p) = read_u16(data, end)?;
        let (class, p) = read_u16(data, p)?;
        proof {
            assert(name@ =~= data@.subrange(pos as int, end as int));
        }
        Ok((DNSQuestion { name, qtype, class }, p))
    }
}

} // verus!
