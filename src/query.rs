//! Building query messages.
use vstd::prelude::*;
use vstd::string::StringSliceAdditionalSpecFns;
use vstd::utf8::encode_utf8;
use crate::encoding::{encode_domain_name, labels_fit, name_wire, split_dots};
use crate::header::{header_wire, DNSHeader};
use crate::question::{question_wire, DNSQuestion, QuestionView};
use crate::wire::{be16, push_slice, WireError};
use crate::CLASS_IN;

verus! {

/// The recursion-desired flag bit of the header.
pub const RECURSION_DESIRED: u16 = 0x0100;

/// The header of a query with the given id: recursion desired, one question.
pub open spec fn query_header(id: u16) -> DNSHeader {
    DNSHeader {
        id,
        flags: RECURSION_DESIRED,
        num_questions: 1,
        num_answers: 0,
        num_authorities: 0,
        num_additionals: 0,
    }
}

/// The query with id `id` for the name whose text bytes are `name`, of type
/// `record_type`, class IN.
pub open spec fn query_wire(id: u16, name: Seq<u8>, record_type: u16) -> Seq<u8> {
    header_wire(query_header(id)) + question_wire(
        QuestionView { name: name_wire(name), qtype: record_type, class: CLASS_IN },
    )
}

/// The query for `domain_name` of type `record_type` with id `id`: the header,
/// then the one question. A label longer than 63 bytes is refused.
pub fn build_query(id: u16, domain_name: &str, record_type: u16) -> (r: Result<Vec<u8>, WireError>)
    ensures
        match r {
            Ok(w) => labels_fit(split_dots(domain_name.spec_bytes())) && w@ == query_wire(
                id,
                domain_name.spec_bytes(),
                record_type,
            ),
            Err(x) => !labels_fit(split_dots(domain_name.spec_bytes())) && x
                == WireError::LabelTooLong,
        },
{
    let name = match encode_domain_name(domain_name) {
        Ok(n) => n,
        Err(x) => {
            return Err(x);
        },
    };
    let mut header = DNSHeader::new(id, RECURSION_DESIRED);
    header.num_questions = 1;
    let question = DNSQuestion { name, qtype: record_type, class: CLASS_IN };
    let mut acc = header.to_be_bytes();
    let q = question.to_be_bytes();
    push_slice(&mut acc, q.as_slice(), 0, q.len());
    proof {
        assert(q@.subrange(0, q@.len() as int) =~= q@);
    }
    Ok(acc)
}

/// A query in the making: the id to use, the name and the record type.
pub struct QueryBuilder {
    pub id: u16,
    pub domain_name: String,
    pub record_type: u16,
}

impl QueryBuilder {
    /// A builder for `domain_name` of type `record_type` with id `id`.
    pub fn new(id: u16, domain_name: String, record_type: u16) -> (r: QueryBuilder)
        ensures
            r.id == id,
            r.domain_name@ == domain_name@,
            r.record_type == record_type,
    {
        QueryBuilder { id, domain_name, record_type }
    }

    /// Uses `id` as the next query's id.
    pub fn with_id(&mut self, id: u16) -> (r: &mut Self)
        ensures
            r.id == id,
            r.domain_name == old(self).domain_name,
            r.record_type == old(self).record_type,
            *final(self) == *final(r),
    {
        self.id = id;
        self
    }

    /// The query that the builder describes.
    pub fn build_query(&self) -> (r: Result<Vec<u8>, WireError>)
        ensures
            match r {
                Ok(w) => labels_fit(split_dots(encode_utf8(self.domain_name@))) && w@
                    == query_wire(self.id, encode_utf8(self.domain_name@), self.record_type),
                Err(x) => !labels_fit(split_dots(encode_utf8(self.domain_name@))) && x
                    == WireError::LabelTooLong,
            },
    {
        build_query(self.id, self.domain_name.as_str(), self.record_type)
    }
}

} // verus!
