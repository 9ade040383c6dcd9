//! A whole message: header, questions and the three record sections.
use vstd::prelude::*;
use crate::header::{header_at, DNSHeader};
use crate::question::{question_at, DNSQuestion, QuestionView};
use crate::record::{record_at, DNSRecord, DNSRecordResult, RecordResultView, RecordView};
use crate::wire::WireError;
use crate::{TYPE_A, TYPE_NS};

verus! {

/// A decoded message.
#[derive(Debug)]
pub struct DNSPacket {
    pub header: DNSHeader,
    pub questions: Vec<DNSQuestion>,
    pub answers: Vec<DNSRecord>,
    pub authorities: Vec<DNSRecord>,
    pub additionals: Vec<DNSRecord>,
}

/// What a message holds.
pub struct PacketView {
    pub header: DNSHeader,
    pub questions: Seq<QuestionView>,
    pub answers: Seq<RecordView>,
    pub authorities: Seq<RecordView>,
    pub additionals: Seq<RecordView>,
}

/// The views of a sequence of records.
pub open spec fn record_views(rs: Seq<DNSRecord>) -> Seq<RecordView> {
    rs.map_values(|r: DNSRecord| r@)
}

impl View for DNSPacket {
    type V = PacketView;

    open spec fn view(&self) -> PacketView {
        PacketView {
            header: self.header,
            questions: self.questions@.map_values(|q: DNSQuestion| q@),
            answers: record_views(self.answers@),
            authorities: record_views(self.authorities@),
            additionals: record_views(self.additionals@),
        }
    }
}

/// The `n` questions that follow one another from `pos`, and the position after them.
pub open spec fn questions_at(data: Seq<u8>, pos: int, n: nat) -> Result<
    (Seq<QuestionView>, int),
    WireError,
>
    decreases n,
{
    if n == 0 {
        Ok((Seq::<QuestionView>::empty(), pos))
    } else {
        match questions_at(data, pos, (n - 1) as nat) {
            Ok((qs, p)) => match question_at(data, p) {
                Ok((q, e)) => Ok((qs.push(q), e)),
                Err(x) => Err(x),
            },
            Err(x) => Err(x),
        }
    }
}

/// The `n` records that follow one another from `pos`, and the position after them.
pub open spec fn records_at(data: Seq<u8>, pos: int, n: nat) -> Result<
    (Seq<RecordView>, int),
    WireError,
>
    decreases n,
{
    if n == 0 {
        Ok((Seq::<RecordView>::empty(), pos))
    } else {
        match records_at(data, pos, (n - 1) as nat) {
            Ok((rs, p)) => match record_at(data, p) {
                Ok((r, e)) => Ok((rs.push(r), e)),
                Err(x) => Err(x),
            },
            Err(x) => Err(x),
        }
    }
}

/// The message that `data` holds: the header, then as many questions,
/// answers, authorities and additionals as it counts, in that order, each
/// read where the one before ended. Bytes after the last record are ignored.
pub open spec fn packet_of(data: Seq<u8>) -> Result<PacketView, WireError> {
    match header_at(data, 0) {
        Err(x) => Err(x),
        Ok((h, after_header)) => match questions_at(data, after_header, h.num_questions as nat) {
            Err(x) => Err(x),
            Ok((qs, after_questions)) => match records_at(data, after_questions, h.num_answers as nat) {
                Err(x) => Err(x),
                Ok((ans, after_answers)) => match records_at(data, after_answers, h.num_authorities as nat) {
                    Err(x) => Err(x),
                    Ok((auth, after_authorities)) => match records_at(data, after_authorities, h.num_additionals as nat) {
                        Err(x) => Err(x),
                        Ok((add, _)) => Ok(
                            PacketView {
                                header: h,
                                questions: qs,
                                answers: ans,
                                authorities: auth,
                                additionals: add,
                            },
                        ),
                    },
                },
            },
        },
    }
}

/// The payload of the first record of type `t` in `rs`, if there is one.
pub open spec fn first_of_type(rs: Seq<RecordView>, t: u16) -> Option<RecordResultView>
    decreases rs.len(),
{
    if rs.len() == 0 {
        None
    } else if rs[0].qtype == t {
        Some(rs[0].res)
    } else {
        first_of_type(rs.drop_first(), t)
    }
}

/// Reads `n` records from `pos`; gives them and the position after them.
fn parse_records(data: &[u8], pos: usize, n: u16) -> (r: Result<(Vec<DNSRecord>, usize), WireError>)
    ensures
        match records_at(data@, pos as int, n as nat) {
            Ok((rs, e)) => r is Ok && record_views(r->Ok_0.0@) == rs && r->Ok_0.1 as int == e,
            Err(x) => r == Err::<(Vec<DNSRecord>, usize), WireError>(x),
        },
{
    let mut out: Vec<DNSRecord> = Vec::new();
    let mut p = pos;
    let mut i: u16 = 0;
    proof {
        assert(record_views(out@) =~= Seq::<RecordView>::empty());
    }
    while i < n
        invariant
            i <= n,
            records_at(data@, pos as int, i as nat) == Ok::<(Seq<RecordView>, int), WireError>(
                (record_views(out@), p as int),
            ),
        decreases n - i,
    {
        let (rec, e) = match DNSRecord::parse_record(data, p) {
            Ok(v) => v,
            Err(x) => {
                proof {
                    lemma_records_err(data@, pos as int, i as nat, n as nat);
                }
                return Err(x);
            },
        };
        let ghost old_out = out@;
        out.push(rec);
        proof {
            assert(record_views(out@) =~= record_views(old_out).push(rec@));
        }
        p = e;
        i += 1;
    }
    Ok((out, p))
}

/// Once reading fails at the next record, reading more records fails the same way.
proof fn lemma_records_err(data: Seq<u8>, pos: int, i: nat, n: nat)
    requires
        i < n,
        records_at(data, pos, i) is Ok,
        record_at(data, records_at(data, pos, i)->Ok_0.1) is Err,
    ensures
        records_at(data, pos, n) == Err::<(Seq<RecordView>, int), WireError>(
            record_at(data, records_at(data, pos, i)->Ok_0.1)->Err_0,
        ),
    decreases n - i,
{
    if n > i + 1 {
        lemma_records_err(data, pos, i, (n - 1) as nat);
    }
}

/// Once reading fails at the next question, reading more questions fails the same way.
proof fn lemma_questions_err(data: Seq<u8>, pos: int, i: nat, n: nat)
    requires
        i < n,
        questions_at(data, pos, i) is Ok,
        question_at(data, questions_at(data, pos, i)->Ok_0.1) is Err,
    ensures
        questions_at(data, pos, n) == Err::<(Seq<QuestionView>, int), WireError>(
            question_at(data, questions_at(data, pos, i)->Ok_0.1)->Err_0,
        ),
    decreases n - i,
{
    if n > i + 1 {
        lemma_questions_err(data, pos, i, (n - 1) as nat);
    }
}

/// The payload of the first record of type `t` in `rs`.
fn find_first(rs: &Vec<DNSRecord>, t: u16) -> (r: Option<&DNSRecordResult>)
    ensures
        match first_of_type(record_views(rs@), t) {
            Some(v) => r is Some && r->Some_0@ == v,
            None => r is None,
        },
{
    let ghost all = record_views(rs@);
    let mut i: usize = 0;
    proof {
        assert(all.subrange(0, all.len() as int) =~= all);
    }
    while i < rs.len()
        invariant
            i <= rs@.len(),
            all == record_views(rs@),
            first_of_type(all, t) == first_of_type(all.subrange(i as int, all.len() as int), t),
        decreases rs@.len() - i,
    {
        proof {
            let rest = all.subrange(i as int, all.len() as int);
            assert(rest.drop_first() =~= all.subrange(i + 1, all.len() as int));
            assert(rest[0] == rs@[i as int]@);
        }
        if rs[i].qtype == t {
            return Some(&rs[i].res);
        }
        i += 1;
    }
    proof {
        assert(all.subrange(i as int, all.len() as int) =~= Seq::<RecordView>::empty());
    }
    None
}

impl DNSPacket {
    /// Decodes a whole message; all sections read from one buffer, so that
    /// compression pointers reach across them.
    pub fn parse_dns_packet(data: &[u8]) -> (r: Result<DNSPacket, WireError>)
        ensures
            match packet_of(data@) {
                Ok(v) => r is Ok && r->Ok_0@ == v,
                Err(x) => r == Err::<DNSPacket, WireError>(x),
            },
    {
        let (header, p) = match DNSHeader::parse_header(data, 0) {
            Ok(v) => v,
            Err(x) => {
                return Err(x);
            },
        };
        let mut questions: Vec<DNSQuestion> = Vec::new();
        let mut p = p;
        let mut i: u16 = 0;
        proof {
            assert(questions@.map_values(|q: DNSQuestion| q@) =~= Seq::<QuestionView>::empty());
        }
        while i < header.num_questions
            invariant
                i <= header.num_questions,
                header_at(data@, 0) == Ok::<(DNSHeader, int), WireError>((header, 12)),
                questions_at(data@, 12, i as nat) == Ok::<(Seq<QuestionView>, int), WireError>(
                    (questions@.map_values(|q: DNSQuestion| q@), p as int),
                ),
            decreases header.num_questions - i,
        {
            let (q, e) = match DNSQuestion::parse_question(data, p) {
                Ok(v) => v,
                Err(x) => {
                    proof {
                        lemma_questions_err(data@, 12, i as nat, header.num_questions as nat);
                    }
                    return Err(x);
                },
            };
            let ghost old_q = questions@;
            questions.push(q);
            proof {
                assert(questions@.map_values(|q: DNSQuestion| q@) =~= old_q.map_values(
                    |q: DNSQuestion| q@,
                ).push(q@));
            }
            p = e;
            i += 1;
        }
        let (answers, p) = match parse_records(data, p, header.num_answers) {
            Ok(v) => v,
            Err(x) => {
                return Err(x);
            },
        };
        let (authorities, p) = match parse_records(data, p, header.num_authorities) {
            Ok(v) => v,
            Err(x) => {
                return Err(x);
            },
        };
        let (additionals, _) = match parse_records(data, p, header.num_additionals) {
            Ok(v) => v,
            Err(x) => {
                return Err(x);
            },
        };
        let r = DNSPacket { header, questions, answers, authorities, additionals };
        proof {
            assert(r@.questions == questions@.map_values(|q: DNSQuestion| q@));
        }
        Ok(r)
    }

    /// The payload of the first address record among the answers.
    pub fn get_answer(&self) -> (r: Option<&DNSRecordResult>)
        ensures
            match first_of_type(self@.answers, TYPE_A) {
                Some(v) => r is Some && r->Some_0@ == v,
                None => r is None,
            },
    {
        find_first(&self.answers, TYPE_A)
    }

    /// The payload of the first address record among the additionals: the glue
    /// for a referred nameserver.
    pub fn get_nameserver_ip(&self) -> (r: Option<&DNSRecordResult>)
        ensures
            match first_of_type(self@.additionals, TYPE_A) {
                Some(v) => r is Some && r->Some_0@ == v,
                None => r is None,
            },
    {
        find_first(&self.additionals, TYPE_A)
    }

    /// The payload of the first nameserver record among the authorities.
    pub fn get_nameserver(&self) -> (r: Option<&DNSRecordResult>)
        ensures
            match first_of_type(self@.authorities, TYPE_NS) {
                Some(v) => r is Some && r->Some_0@ == v,
                None => r is None,
            },
    {
        find_first(&self.authorities, TYPE_NS)
    }

    /// The answer records.
    pub fn answers(&self) -> (r: &[DNSRecord])
        ensures
            r@ == self.answers@,
    {
        self.answers.as_slice()
    }

    /// The authority records.
    pub fn authorities(&self) -> (r: &[DNSRecord])
        ensures
            r@ == self.authorities@,
    {
        self.authorities.as_slice()
    }

    /// The additional records.
    pub fn additionals(&self) -> (r: &[DNSRecord])
        ensures
            r@ == self.additionals@,
    {
        self.additionals.as_slice()
    }
}

} // verus!
