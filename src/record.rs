//! Resource records: decoding with a typed payload, and writing back.
use vstd::prelude::*;
use vstd::utf8::encode_utf8;
use crate::encoding::{
    decode_name, encode_domain_name, labels_encodable, labels_fit, lemma_name_text_at, name_text,
    name_wire, split_dots,
};
use crate::wire::{
    be16, be32, push_slice, push_u16, push_u32, read_u16, read_u32, u16_at, u32_at, WireError,
};
use crate::{TYPE_A, TYPE_NS};

verus! {

/// An IP address, as its octets.
#[derive(Debug, Clone, Copy, PartialEq, Eq)]
pub enum IpAddress {
    V4([u8; 4]),
    V6([u8; 16]),
}

impl View for IpAddress {
    type V = Seq<u8>;

    /// The octets: four of a version 4 address, sixteen of a version 6 one.
    open spec fn view(&self) -> Seq<u8> {
        match self {
            IpAddress::V4(a) => a@,
            IpAddress::V6(a) => a@,
        }
    }
}

/// The payload of a record, by its type.
#[derive(Debug, Clone, PartialEq, Eq)]
pub enum DNSRecordResult {
    /// The name of a nameserver (a record of type NS).
    NameServer(String),
    /// An address (a record of type A).
    Address(IpAddress),
    /// The raw payload of a record of any other type.
    Unknown(Vec<u8>),
}

/// What a record's payload holds.
pub enum RecordResultView {
    NameServer(Seq<char>),
    Address(Seq<u8>),
    Unknown(Seq<u8>),
}

impl View for DNSRecordResult {
    type V = RecordResultView;

    open spec fn view(&self) -> RecordResultView {
        match self {
            DNSRecordResult::NameServer(n) => RecordResultView::NameServer(n@),
            DNSRecordResult::Address(a) => RecordResultView::Address(a@),
            DNSRecordResult::Unknown(d) => RecordResultView::Unknown(d@),
        }
    }
}

/// A resource record: owner name, type, class, time to live and payload.
#[derive(Debug)]
pub struct DNSRecord {
    pub name: String,
    pub qtype: u16,
    pub class: u16,
    pub ttl: u32,
    pub res: DNSRecordResult,
}

/// What a record holds.
pub struct RecordView {
    pub name: Seq<char>,
    pub qtype: u16,
    pub class: u16,
    pub ttl: u32,
    pub res: RecordResultView,
}

impl View for DNSRecord {
    type V = RecordView;

    open spec fn view(&self) -> RecordView {
        RecordView {
            name: self.name@,
            qtype: self.qtype,
            class: self.class,
            ttl: self.ttl,
            res: self.res@,
        }
    }
}

/// The payload of a record of type `qtype` whose data starts at `pos` with
/// announced length `rdlen`, and the position after it. An address is always
/// four bytes and a nameserver name ends where its decoding ends: the
/// announced length serves only the other types.
pub open spec fn rdata_at(data: Seq<u8>, qtype: u16, rdlen: u16, pos: int) -> Result<
    (RecordResultView, int),
    WireError,
> {
    if qtype == TYPE_A {
        if pos + 4 > data.len() {
            Err(WireError::UnexpectedEnd)
        } else {
            Ok((RecordResultView::Address(data.subrange(pos, pos + 4)), pos + 4))
        }
    } else if qtype == TYPE_NS {
        match name_text(data, pos) {
            Ok((n, e)) => Ok((RecordResultView::NameServer(n), e)),
            Err(x) => Err(x),
        }
    } else {
        if pos + rdlen > data.len() {
            Err(WireError::UnexpectedEnd)
        } else {
            Ok((RecordResultView::Unknown(data.subrange(pos, pos + rdlen)), pos + rdlen))
        }
    }
}

/// The record at `pos`, and the position after it: the owner name (with
/// compression), type, class, time to live, payload length, then the payload.
pub open spec fn record_at(data: Seq<u8>, pos: int) -> Result<(RecordView, int), WireError> {
    match name_text(data, pos) {
        Ok((name, p)) => if p + 10 > data.len() {
            Err(WireError::UnexpectedEnd)
        } else {
            match rdata_at(data, u16_at(data, p), u16_at(data, p + 8), p + 10) {
                Ok((res, e)) => Ok(
                    (
                        RecordView {
                            name,
                            qtype: u16_at(data, p),
                            class: u16_at(data, p + 2),
                            ttl: u32_at(data, p + 4),
                            res,
                        },
                        e,
                    ),
                ),
                Err(x) => Err(x),
            }
        },
        Err(x) => Err(x),
    }
}

/// The payload of `r` on the wire, without its length field.
pub open spec fn rdata_wire(r: RecordResultView) -> Result<Seq<u8>, WireError> {
    match r {
        RecordResultView::Address(a) => Ok(a),
        RecordResultView::NameServer(n) => if labels_fit(split_dots(encode_utf8(n))) {
            Ok(name_wire(encode_utf8(n)))
        } else {
            Err(WireError::LabelTooLong)
        },
        RecordResultView::Unknown(d) => Ok(d),
    }
}

/// The record `r` on the wire; the payload goes behind its 16-bit length.
pub open spec fn record_wire(r: RecordView) -> Result<Seq<u8>, WireError> {
    if !labels_fit(split_dots(encode_utf8(r.name))) {
        Err(WireError::LabelTooLong)
    } else {
        match rdata_wire(r.res) {
            Ok(d) => if d.len() > 0xFFFF {
                Err(WireError::RdataTooLong)
            } else {
                Ok(
                    name_wire(encode_utf8(r.name)) + be16(r.qtype) + be16(r.class) + be32(r.ttl)
                        + be16(d.len() as u16) + d,
                )
            },
            Err(x) => Err(x),
        }
    }
}

impl DNSRecord {
    /// A record with the given fields.
    pub fn new(name: String, qtype: u16, class: u16, ttl: u32, res: DNSRecordResult) -> (r:
        DNSRecord)
        ensures
            r@ == (RecordView { name: name@, qtype, class, ttl, res: res@ }),
    {
        DNSRecord { name, qtype, class, ttl, res }
    }

    /// Reads the record at `pos` of the whole message `data`; gives it and the
    /// position after it.
    pub fn parse_record(data: &[u8], pos: usize) -> (r: Result<(DNSRecord, usize), WireError>)
        ensures
            match record_at(data@, pos as int) {
                Ok((v, e)) => r is Ok && r->Ok_0.0@ == v && r->Ok_0.1 as int == e,
                Err(x) => r == Err::<(DNSRecord, usize), WireError>(x),
            },
    {
        let (name, p) = match decode_name(data, pos) {
            Ok(v) => v,
            Err(x) => {
                return Err(x);
            },
        };
        if p >= data.len() || data.len() - p < 10 {
            return Err(WireError::UnexpectedEnd);
        }
        let (qtype, p) = read_u16(data, p)?;
        let (class, p) = read_u16(data, p)?;
        let (ttl, p) = read_u32(data, p)?;
        let (rdlen, p) = read_u16(data, p)?;
        let (res, e) = if qtype == TYPE_A {
            if p >= data.len() || data.len() - p < 4 {
                return Err(WireError::UnexpectedEnd);
            }
            let octets: [u8; 4] = [data[p], data[p + 1], data[p + 2], data[p + 3]];
            proof {
                assert(octets@ =~= data@.subrange(p as int, p + 4));
            }
            (DNSRecordResult::Address(IpAddress::V4(octets)), p + 4)
        } else if qtype == TYPE_NS {
            match decode_name(data, p) {
                Ok((n, e)) => (DNSRecordResult::NameServer(n), e),
                Err(x) => {
                    return Err(x);
                },
            }
        } else {
            if (rdlen as usize) > data.len() - p {
                return Err(WireError::UnexpectedEnd);
            }
            let mut payload: Vec<u8> = Vec::new();
            push_slice(&mut payload, data, p, p + rdlen as usize);
            (DNSRecordResult::Unknown(payload), p + rdlen as usize)
        };
        Ok((DNSRecord { name, qtype, class, ttl, res }, e))
    }

    /// The record on the wire, its payload written by kind.
    pub fn to_record(&self) -> (r: Result<Vec<u8>, WireError>)
        ensures
            match record_wire(self@) {
                Ok(w) => r is Ok && r->Ok_0@ == w,
                Err(x) => r == Err::<Vec<u8>, WireError>(x),
            },
    {
        let mut bytes = match encode_domain_name(self.name.as_str()) {
            Ok(b) => b,
            Err(x) => {
                return Err(x);
            },
        };
        let rdata: Vec<u8> = match &self.res {
            DNSRecordResult::Address(IpAddress::V4(a)) => {
                let mut d: Vec<u8> = Vec::new();
                push_slice(&mut d, a.as_slice(), 0, 4);
                d
            },
            DNSRecordResult::Address(IpAddress::V6(a)) => {
                let mut d: Vec<u8> = Vec::new();
                push_slice(&mut d, a.as_slice(), 0, 16);
                d
            },
            DNSRecordResult::NameServer(n) => match encode_domain_name(n.as_str()) {
                Ok(d) => d,
                Err(x) => {
                    return Err(x);
                },
            },
            DNSRecordResult::Unknown(d) => {
                let mut c: Vec<u8> = Vec::new();
                push_slice(&mut c, d.as_slice(), 0, d.len());
                c
            },
        };
        proof {
            assert(rdata_wire(self@.res) == Ok::<Seq<u8>, WireError>(rdata@)) by {
                match &self.res {
                    DNSRecordResult::Address(IpAddress::V4(a)) => {
                        assert(a@.subrange(0, 4) =~= a@);
                    },
                    DNSRecordResult::Address(IpAddress::V6(a)) => {
                        assert(a@.subrange(0, 16) =~= a@);
                    },
                    DNSRecordResult::Unknown(d) => {
                        assert(d@.subrange(0, d@.len() as int) =~= d@);
                    },
                    _ => {},
                }
            }
        }
        if rdata.len() > 0xFFFF {
            return Err(WireError::RdataTooLong);
        }
        push_u16(&mut bytes, self.qtype);
        push_u16(&mut bytes, self.class);
        push_u32(&mut bytes, self.ttl);
        push_u16(&mut bytes, rdata.len() as u16);
        push_slice(&mut bytes, rdata.as_slice(), 0, rdata.len());
        proof {
            assert(rdata@.subrange(0, rdata@.len() as int) =~= rdata@);
        }
        Ok(bytes)
    }

    /// The record's type.
    pub fn qtype(&self) -> (r: u16)
        ensures
            r == self@.qtype,
    {
        self.qtype
    }

    /// The record's payload.
    pub fn res(&self) -> (r: &DNSRecordResult)
        ensures
            r@ == self@.res,
    {
        &self.res
    }
}

/// The payload's kind agrees with the record's type, as decoding gives it: a
/// four-octet address under type A, a nameserver name under type NS, raw
/// bytes under any other type. Names have nonempty labels of at most 63 bytes,
/// and the payload fits its 16-bit length field.
pub open spec fn record_writable(r: RecordView) -> bool {
    &&& labels_encodable(split_dots(encode_utf8(r.name)))
    &&& match r.res {
        RecordResultView::Address(a) => r.qtype == TYPE_A && a.len() == 4,
        RecordResultView::NameServer(n) => r.qtype == TYPE_NS && labels_encodable(
            split_dots(encode_utf8(n)),
        ) && name_wire(encode_utf8(n)).len() <= 0xFFFF,
        RecordResultView::Unknown(d) => r.qtype != TYPE_A && r.qtype != TYPE_NS && d.len()
            <= 0xFFFF,
    }
}

/// The fixed fields that follow a record's name on the wire.
spec fn fields_wire(qtype: u16, class: u16, ttl: u32, rdlen: u16) -> Seq<u8> {
    be16(qtype) + be16(class) + be32(ttl) + be16(rdlen)
}

proof fn lemma_fields_read(data: Seq<u8>, p: int, qtype: u16, class: u16, ttl: u32, rdlen: u16)
    requires
        0 <= p,
        p + 10 <= data.len(),
        data.subrange(p, p + 10) == fields_wire(qtype, class, ttl, rdlen),
    ensures
        u16_at(data, p) == qtype,
        u16_at(data, p + 2) == class,
        u32_at(data, p + 4) == ttl,
        u16_at(data, p + 8) == rdlen,
{
    let f = fields_wire(qtype, class, ttl, rdlen);
    assert forall|i: int| 0 <= i < 10 implies data[p + i] == #[trigger] f[i] by {
        assert(data.subrange(p, p + 10)[i] == data[p + i]);
    }
    assert(f[0] == (qtype / 256) as u8);
    assert(f[1] == (qtype % 256) as u8);
    assert(f[2] == (class / 256) as u8);
    assert(f[3] == (class % 256) as u8);
    assert(f[4] == (ttl / 0x100_0000) as u8);
    assert(f[5] == ((ttl / 0x1_0000) % 256) as u8);
    assert(f[6] == ((ttl / 256) % 256) as u8);
    assert(f[7] == (ttl % 256) as u8);
    assert(f[8] == (rdlen / 256) as u8);
    assert(f[9] == (rdlen % 256) as u8);
    assert(data[p] == f[0] && data[p + 1] == f[1] && data[p + 2] == f[2] && data[p + 3] == f[3]);
    assert(data[p + 4] == f[4] && data[p + 5] == f[5] && data[p + 6] == f[6] && data[p + 7] == f[7]);
    assert(data[p + 8] == f[8] && data[p + 9] == f[9]);
}

/// The payload that a writable record's `to_record` puts on the wire.
spec fn payload_of(r: RecordResultView) -> Seq<u8> {
    match r {
        RecordResultView::Address(a) => a,
        RecordResultView::NameServer(n) => name_wire(encode_utf8(n)),
        RecordResultView::Unknown(u) => u,
    }
}

/// What `to_record` writes for a writable record.
proof fn lemma_record_wire_of(r: RecordView)
    requires
        record_writable(r),
    ensures
        record_wire(r) == Ok::<Seq<u8>, WireError>(
            name_wire(encode_utf8(r.name)) + fields_wire(
                r.qtype,
                r.class,
                r.ttl,
                payload_of(r.res).len() as u16,
            ) + payload_of(r.res),
        ),
{
    let d = payload_of(r.res);
    assert(labels_fit(split_dots(encode_utf8(r.name))));
    if let RecordResultView::NameServer(n) = r.res {
        assert(labels_fit(split_dots(encode_utf8(n))));
    }
    assert(rdata_wire(r.res) == Ok::<Seq<u8>, WireError>(d));
    assert(name_wire(encode_utf8(r.name)) + be16(r.qtype) + be16(r.class) + be32(r.ttl) + be16(
        d.len() as u16,
    ) + d =~= name_wire(encode_utf8(r.name)) + fields_wire(r.qtype, r.class, r.ttl, d.len() as u16)
        + d);
}

/// The payload of a writable record reads back from where it was written.
proof fn lemma_payload_read(w: Seq<u8>, q: int, r: RecordView)
    requires
        record_writable(r),
        0 <= q,
        q + payload_of(r.res).len() == w.len(),
        w.subrange(q, w.len() as int) == payload_of(r.res),
    ensures
        rdata_at(w, r.qtype, payload_of(r.res).len() as u16, q) == Ok::<
            (RecordResultView, int),
            WireError,
        >((r.res, w.len() as int)),
{
    if let RecordResultView::NameServer(n) = r.res {
        lemma_name_text_at(w, q, n);
    }
}

/// A record reads as its parts: the name, the fixed fields, then the payload.
proof fn lemma_record_at_parts(data: Seq<u8>, r: RecordView, p: int, rdlen: u16)
    requires
        name_text(data, 0) == Ok::<(Seq<char>, int), WireError>((r.name, p)),
        p + 10 <= data.len(),
        u16_at(data, p) == r.qtype,
        u16_at(data, p + 2) == r.class,
        u32_at(data, p + 4) == r.ttl,
        u16_at(data, p + 8) == rdlen,
        rdata_at(data, r.qtype, rdlen, p + 10) == Ok::<(RecordResultView, int), WireError>(
            (r.res, data.len() as int),
        ),
    ensures
        record_at(data, 0) == Ok::<(RecordView, int), WireError>((r, data.len() as int)),
{
}

/// Where each of three joined sequences stands in the whole.
proof fn lemma_three_parts(a: Seq<u8>, b: Seq<u8>, c: Seq<u8>)
    ensures
        (a + b + c).subrange(0, a.len() as int) == a,
        (a + b + c).subrange(a.len() as int, (a.len() + b.len()) as int) == b,
        (a + b + c).subrange((a.len() + b.len()) as int, (a + b + c).len() as int) == c,
{
    assert((a + b + c).subrange(0, a.len() as int) =~= a);
    assert((a + b + c).subrange(a.len() as int, (a.len() + b.len()) as int) =~= b);
    assert((a + b + c).subrange((a.len() + b.len()) as int, (a + b + c).len() as int) =~= c);
}

/// Reading a record undoes writing it: a record whose payload kind agrees with
/// its type is written, and reads back as itself, ending where the bytes end.
pub proof fn lemma_record_round_trip(r: RecordView)
    requires
        record_writable(r),
    ensures
        record_wire(r) is Ok,
        record_at(record_wire(r)->Ok_0, 0) == Ok::<(RecordView, int), WireError>(
            (r, record_wire(r)->Ok_0.len() as int),
        ),
{
    lemma_record_wire_of(r);
    let nw = name_wire(encode_utf8(r.name));
    let d = payload_of(r.res);
    let f = fields_wire(r.qtype, r.class, r.ttl, d.len() as u16);
    let w = nw + f + d;
    let p = nw.len() as int;
    lemma_three_parts(nw, f, d);
    lemma_name_text_at(w, 0, r.name);
    lemma_fields_read(w, p, r.qtype, r.class, r.ttl, d.len() as u16);
    lemma_payload_read(w, p + 10, r);
    lemma_record_at_parts(w, r, p, d.len() as u16);
}

} // verus!
