//! Domain names: splitting into labels, the length-prefixed wire form, and
//! decoding with compression pointers.
use vstd::prelude::*;
use vstd::string::StringSliceAdditionalSpecFns;
use vstd::utf8::{decode_utf8, encode_utf8, valid_utf8};
use crate::wire::{push_slice, WireError};

verus! {

/// The byte that separates labels in the text form of a name.
pub const DOT: u8 = 46;

/// The longest label that a length byte can announce.
pub const MAX_LABEL_LEN: usize = 63;

/// The labels of `b`: the runs of bytes between dots. There is always at
/// least one, possibly empty.
pub open spec fn split_dots(b: Seq<u8>) -> Seq<Seq<u8>>
    decreases b.len(),
{
    if b.len() == 0 {
        seq![Seq::<u8>::empty()]
    } else {
        let init = split_dots(b.drop_last());
        if b.last() == DOT {
            init.push(Seq::<u8>::empty())
        } else {
            init.update(init.len() - 1, init.last().push(b.last()))
        }
    }
}

/// The labels of `ls`, each behind its length byte.
pub open spec fn labels_wire(ls: Seq<Seq<u8>>) -> Seq<u8>
    decreases ls.len(),
{
    if ls.len() == 0 {
        Seq::<u8>::empty()
    } else {
        labels_wire(ls.drop_last()) + seq![ls.last().len() as u8] + ls.last()
    }
}

/// Every label fits a length byte.
pub open spec fn labels_fit(ls: Seq<Seq<u8>>) -> bool {
    forall|k: int| 0 <= k < ls.len() ==> #[trigger] ls[k].len() <= MAX_LABEL_LEN
}

/// The wire form of the name whose text bytes are `b`: its labels, then a zero byte.
pub open spec fn name_wire(b: Seq<u8>) -> Seq<u8> {
    labels_wire(split_dots(b)) + seq![0u8]
}

/// Joins `parts` with a dot between each two.
pub open spec fn join_dots(parts: Seq<Seq<u8>>) -> Seq<u8>
    decreases parts.len(),
{
    if parts.len() == 0 {
        Seq::<u8>::empty()
    } else if parts.len() == 1 {
        parts[0]
    } else {
        join_dots(parts.drop_last()) + seq![DOT] + parts.last()
    }
}

/// A name always splits into at least one label.
proof fn lemma_split_nonempty(b: Seq<u8>)
    ensures
        split_dots(b).len() >= 1,
    decreases b.len(),
{
    if b.len() > 0 {
        lemma_split_nonempty(b.drop_last());
    }
}

/// The labels completed within a prefix stay the first labels of every longer prefix.
proof fn lemma_split_prefix(b: Seq<u8>, i: int, j: int)
    requires
        0 <= i <= j <= b.len(),
    ensures
        split_dots(b.subrange(0, i)).len() <= split_dots(b.subrange(0, j)).len(),
        split_dots(b.subrange(0, i)).drop_last() =~= split_dots(b.subrange(0, j)).subrange(
            0,
            split_dots(b.subrange(0, i)).len() - 1,
        ),
    decreases j - i,
{
    lemma_split_nonempty(b.subrange(0, i));
    if i < j {
        lemma_split_prefix(b, i, j - 1);
        let p = b.subrange(0, j);
        assert(p.drop_last() =~= b.subrange(0, j - 1));
        lemma_split_nonempty(b.subrange(0, j - 1));
    }
}

/// Appends `data[start..end]` behind its length byte.
fn push_label(out: &mut Vec<u8>, data: &[u8], start: usize, end: usize)
    requires
        start <= end <= data@.len(),
        end - start <= MAX_LABEL_LEN,
    ensures
        final(out)@ == old(out)@ + seq![(end - start) as u8] + data@.subrange(
            start as int,
            end as int,
        ),
{
    out.push((end - start) as u8);
    push_slice(out, data, start, end);
}

/// Encodes a dotted name as length-prefixed labels closed by a zero byte. A
/// label longer than 63 bytes is refused.
pub fn encode_domain_name(domain_name: &str) -> (r: Result<Vec<u8>, WireError>)
    ensures
        match r {
            Ok(w) => labels_fit(split_dots(domain_name.spec_bytes())) && w@ == name_wire(
                domain_name.spec_bytes(),
            ),
            Err(e) => !labels_fit(split_dots(domain_name.spec_bytes())) && e
                == WireError::LabelTooLong,
        },
{
    let bytes = domain_name.as_bytes();
    let ghost b = bytes@;
    let n = bytes.len();
    let mut out: Vec<u8> = Vec::new();
    let mut start: usize = 0;
    let mut i: usize = 0;
    proof {
        assert(b.subrange(0, 0) =~= Seq::<u8>::empty());
    }
    while i < n
        invariant
            n == b.len(),
            b == domain_name.spec_bytes(),
            bytes@ == b,
            start <= i <= n,
            split_dots(b.subrange(0, i as int)).len() >= 1,
            split_dots(b.subrange(0, i as int)).last() == b.subrange(start as int, i as int),
            out@ == labels_wire(split_dots(b.subrange(0, i as int)).drop_last()),
            labels_fit(split_dots(b.subrange(0, i as int)).drop_last()),
        decreases n - i,
    {
        let ghost ls = split_dots(b.subrange(0, i as int));
        proof {
            assert(b.subrange(0, i + 1).drop_last() =~= b.subrange(0, i as int));
            lemma_split_nonempty(b.subrange(0, i + 1));
        }
        if bytes[i] == DOT {
            assert(split_dots(b.subrange(0, i + 1)) == ls.push(Seq::<u8>::empty()));
            if i - start > MAX_LABEL_LEN {
                proof {
                    lemma_split_prefix(b, i + 1, n as int);
                    assert(b.subrange(0, n as int) =~= b);
                    let all = split_dots(b);
                    assert(ls.push(Seq::<u8>::empty()).drop_last() =~= ls);
                    assert(all[ls.len() - 1] == ls.last());
                    assert(ls.last().len() > MAX_LABEL_LEN);
                    assert(0 <= ls.len() - 1 < all.len());
                    assert(!labels_fit(all));
                }
                return Err(WireError::LabelTooLong);
            }
            push_label(&mut out, bytes, start, i);
            proof {
                assert(ls.push(Seq::<u8>::empty()).drop_last() =~= ls);
                assert(labels_fit(ls)) by {
                    assert forall|k: int| 0 <= k < ls.len() implies #[trigger] ls[k].len()
                        <= MAX_LABEL_LEN by {
                        if k < ls.len() - 1 {
                            assert(ls[k] == ls.drop_last()[k]);
                        }
                    }
                }
                assert(b.subrange(i + 1, i + 1) =~= Seq::<u8>::empty());
            }
            start = i + 1;
        } else {
            proof {
                let nl = ls.update(ls.len() - 1, ls.last().push(b[i as int]));
                assert(split_dots(b.subrange(0, i + 1)) == nl);
                assert(nl.drop_last() =~= ls.drop_last());
                assert(nl.last() =~= b.subrange(start as int, i + 1));
            }
        }
        i += 1;
    }
    let ghost ls = split_dots(b.subrange(0, n as int));
    proof {
        assert(b.subrange(0, n as int) =~= b);
    }
    if n - start > MAX_LABEL_LEN {
        return Err(WireError::LabelTooLong);
    }
    push_label(&mut out, bytes, start, n);
    out.push(0);
    proof {
        assert(labels_fit(ls)) by {
            assert forall|k: int| 0 <= k < ls.len() implies #[trigger] ls[k].len()
                <= MAX_LABEL_LEN by {
                if k < ls.len() - 1 {
                    assert(ls[k] == ls.drop_last()[k]);
                }
            }
        }
        assert(out@ =~= name_wire(b));
    }
    Ok(out)
}

/// A length byte with its top two bits set starts a compression pointer.
pub open spec fn is_pointer(len: u8) -> bool {
    len >= 0xC0
}

/// The 14-bit offset of a pointer: the low six bits of its first byte, then its second byte.
pub open spec fn pointer_offset(b0: u8, b1: u8) -> int {
    (b0 % 64) as int * 256 + b1 as int
}

/// Puts `acc` in front of the parts of a decoding result.
pub open spec fn with_prefix(
    acc: Seq<Seq<u8>>,
    r: Result<(Seq<Seq<u8>>, int), WireError>,
) -> Result<(Seq<Seq<u8>>, int), WireError> {
    match r {
        Ok((rest, e)) => Ok((acc + rest, e)),
        Err(x) => Err(x),
    }
}

/// The parts of the name that starts at `pos`, and the position after it. Each
/// label is a part; a compression pointer ends the name, and the whole name it
/// points to, joined, is one last part. A pointer must point before `start`,
/// where the current run of labels began: so no chain of pointers can loop.
pub open spec fn name_parts(data: Seq<u8>, start: int, pos: int) -> Result<
    (Seq<Seq<u8>>, int),
    WireError,
>
    decreases start, data.len() - pos,
{
    if pos < 0 || pos >= data.len() {
        Err(WireError::UnexpectedEnd)
    } else if data[pos] == 0 {
        Ok((Seq::<Seq<u8>>::empty(), pos + 1))
    } else if is_pointer(data[pos]) {
        if pos + 1 >= data.len() {
            Err(WireError::UnexpectedEnd)
        } else {
            let t = pointer_offset(data[pos], data[pos + 1]);
            if t >= start {
                Err(WireError::BadPointer)
            } else {
                match name_parts(data, t, t) {
                    Ok((parts, _)) => Ok((seq![join_dots(parts)], pos + 2)),
                    Err(x) => Err(x),
                }
            }
        }
    } else {
        let end = pos + 1 + data[pos] as int;
        if end > data.len() {
            Err(WireError::UnexpectedEnd)
        } else {
            with_prefix(seq![data.subrange(pos + 1, end)], name_parts(data, start, end))
        }
    }
}

/// The labels of the name at `pos` read without compression: every nonzero
/// length byte announces a label.
pub open spec fn simple_parts(data: Seq<u8>, pos: int) -> Result<(Seq<Seq<u8>>, int), WireError>
    decreases data.len() - pos,
{
    if pos < 0 || pos >= data.len() {
        Err(WireError::UnexpectedEnd)
    } else if data[pos] == 0 {
        Ok((Seq::<Seq<u8>>::empty(), pos + 1))
    } else {
        let end = pos + 1 + data[pos] as int;
        if end > data.len() {
            Err(WireError::UnexpectedEnd)
        } else {
            with_prefix(seq![data.subrange(pos + 1, end)], simple_parts(data, end))
        }
    }
}

/// The text of a decoded name: its parts joined by dots, read as UTF-8.
pub open spec fn as_text(r: Result<(Seq<Seq<u8>>, int), WireError>) -> Result<
    (Seq<char>, int),
    WireError,
> {
    match r {
        Ok((parts, e)) => if valid_utf8(join_dots(parts)) {
            Ok((decode_utf8(join_dots(parts)), e))
        } else {
            Err(WireError::InvalidUtf8)
        },
        Err(x) => Err(x),
    }
}

/// `r` is what the model `m` gives.
pub open spec fn text_matches(
    r: Result<(String, usize), WireError>,
    m: Result<(Seq<char>, int), WireError>,
) -> bool {
    match m {
        Ok((t, e)) => r is Ok && r->Ok_0.0@ == t && r->Ok_0.1 as int == e,
        Err(x) => r == Err::<(String, usize), WireError>(x),
    }
}

/// The name at `pos` as text, compression pointers followed.
pub open spec fn name_text(data: Seq<u8>, pos: int) -> Result<(Seq<char>, int), WireError> {
    as_text(name_parts(data, pos, pos))
}

/// The name at `pos` as text, read without compression.
pub open spec fn simple_name_text(data: Seq<u8>, pos: int) -> Result<(Seq<char>, int), WireError> {
    as_text(simple_parts(data, pos))
}

/// The name that a pointer whose first byte is `length` and whose second byte
/// sits at `pos` leads to, as text, with the position after the pointer. The
/// target must lie before the pointer's first byte.
pub open spec fn pointer_text(length: u8, data: Seq<u8>, pos: int) -> Result<
    (Seq<char>, int),
    WireError,
> {
    if pos < 0 || pos >= data.len() {
        Err(WireError::UnexpectedEnd)
    } else {
        let t = pointer_offset(length, data[pos]);
        if t + 1 >= pos {
            Err(WireError::BadPointer)
        } else {
            match as_text(name_parts(data, t, t)) {
                Ok((s, _)) => Ok((s, pos + 1)),
                Err(x) => Err(x),
            }
        }
    }
}

proof fn lemma_join_push(parts: Seq<Seq<u8>>, p: Seq<u8>)
    ensures
        join_dots(parts.push(p)) == if parts.len() == 0 {
            p
        } else {
            join_dots(parts) + seq![DOT] + p
        },
{
    assert(parts.push(p).drop_last() =~= parts);
}

/// Appends `part` to the joined bytes `out` of `acc`.
fn push_part(out: &mut Vec<u8>, first: bool, data: &[u8], s: usize, e: usize, Ghost(acc): Ghost<
    Seq<Seq<u8>>,
>)
    requires
        s <= e <= data@.len(),
        old(out)@ == join_dots(acc),
        first <==> acc.len() == 0,
    ensures
        final(out)@ == join_dots(acc.push(data@.subrange(s as int, e as int))),
{
    proof {
        lemma_join_push(acc, data@.subrange(s as int, e as int));
    }
    if !first {
        out.push(DOT);
    }
    push_slice(out, data, s, e);
    proof {
        if !first {
            assert(final(out)@ =~= join_dots(acc) + seq![DOT] + data@.subrange(s as int, e as int));
        }
    }
}

/// Decodes the name at `pos` into its joined bytes, following compression
/// pointers that point before `start`.
fn name_bytes(data: &[u8], start: usize, pos: usize) -> (r: Result<(Vec<u8>, usize), WireError>)
    ensures
        match name_parts(data@, start as int, pos as int) {
            Ok((parts, e)) => r is Ok && r->Ok_0.0@ == join_dots(parts) && r->Ok_0.1 as int == e,
            Err(x) => r == Err::<(Vec<u8>, usize), WireError>(x),
        },
    decreases start,
{
    let mut out: Vec<u8> = Vec::new();
    let ghost mut acc: Seq<Seq<u8>> = Seq::empty();
    let mut first = true;
    let mut p = pos;
    proof {
        assert(with_prefix(acc, name_parts(data@, start as int, p as int)) =~= name_parts(
            data@,
            start as int,
            pos as int,
        )) by {
            match name_parts(data@, start as int, p as int) {
                Ok((rest, e)) => {
                    assert(acc + rest =~= rest);
                },
                Err(_) => {},
            }
        }
    }
    loop
        invariant
            out@ == join_dots(acc),
            first <==> acc.len() == 0,
            p >= pos,
            name_parts(data@, start as int, pos as int) == with_prefix(
                acc,
                name_parts(data@, start as int, p as int),
            ),
        decreases data@.len() - p,
    {
        if p >= data.len() {
            return Err(WireError::UnexpectedEnd);
        }
        let len = data[p];
        if len == 0 {
            proof {
                assert(acc + Seq::<Seq<u8>>::empty() =~= acc);
            }
            return Ok((out, p + 1));
        }
        if len >= 0xC0 {
            if p + 1 >= data.len() {
                return Err(WireError::UnexpectedEnd);
            }
            let t: usize = ((len % 64) as usize) * 256 + data[p + 1] as usize;
            if t >= start {
                return Err(WireError::BadPointer);
            }
            let (sub, _) = match name_bytes(data, t, t) {
                Ok(v) => v,
                Err(x) => {
                    return Err(x);
                },
            };
            let ghost part = sub@;
            proof {
                assert(sub@.subrange(0, sub@.len() as int) =~= sub@);
            }
            push_part(&mut out, first, sub.as_slice(), 0, sub.len(), Ghost(acc));
            proof {
                let sp = name_parts(data@, t as int, t as int)->Ok_0.0;
                assert(name_parts(data@, start as int, p as int) == Ok::<
                    (Seq<Seq<u8>>, int),
                    WireError,
                >((seq![join_dots(sp)], p + 2)));
                assert(acc.push(part) =~= acc + seq![part]);
            }
            return Ok((out, p + 2));
        }
        if (len as usize) > data.len() - p - 1 {
            return Err(WireError::UnexpectedEnd);
        }
        let end = p + 1 + len as usize;
        push_part(&mut out, first, data, p + 1, end, Ghost(acc));
        proof {
            let lbl = data@.subrange(p + 1, end as int);
            match name_parts(data@, start as int, end as int) {
                Ok((rest, e)) => {
                    assert(acc + (seq![lbl] + rest) =~= acc.push(lbl) + rest);
                },
                Err(_) => {},
            }
            acc = acc.push(lbl);
        }
        first = false;
        p = end;
    }
}

/// A decoded name ends after its start and within the buffer.
proof fn lemma_name_end(data: Seq<u8>, start: int, pos: int)
    ensures
        name_parts(data, start, pos) is Ok ==> pos < name_parts(data, start, pos)->Ok_0.1
            <= data.len(),
        simple_parts(data, pos) is Ok ==> pos < simple_parts(data, pos)->Ok_0.1 <= data.len(),
    decreases data.len() - pos,
{
    if 0 <= pos < data.len() && data[pos] != 0 {
        let end = pos + 1 + data[pos] as int;
        if end <= data.len() {
            lemma_name_end(data, start, end);
        }
    }
}

/// Relies on `String::from_utf8`: it accepts exactly the valid UTF-8 byte
/// strings and keeps the characters they encode.
#[verifier::external_body]
fn utf8_string(bytes: Vec<u8>) -> (r: Result<String, WireError>)
    ensures
        match r {
            Ok(s) => valid_utf8(bytes@) && s@ == decode_utf8(bytes@),
            Err(x) => !valid_utf8(bytes@) && x == WireError::InvalidUtf8,
        },
{
    String::from_utf8(bytes).map_err(|_| WireError::InvalidUtf8)
}

/// Turns the joined bytes of a decoded name into text.
fn into_text(r: Result<(Vec<u8>, usize), WireError>, Ghost(m): Ghost<
    Result<(Seq<Seq<u8>>, int), WireError>,
>) -> (t: Result<(String, usize), WireError>)
    requires
        match m {
            Ok((parts, e)) => r is Ok && r->Ok_0.0@ == join_dots(parts) && r->Ok_0.1 as int == e,
            Err(x) => r == Err::<(Vec<u8>, usize), WireError>(x),
        },
    ensures
        text_matches(t, as_text(m)),
{
    match r {
        Ok((bytes, e)) => match utf8_string(bytes) {
            Ok(s) => Ok((s, e)),
            Err(x) => Err(x),
        },
        Err(x) => Err(x),
    }
}

/// Decodes the name at `pos`, following compression pointers; gives the name
/// and the position after it. A pointer must point before the name that holds it.
pub fn decode_name(data: &[u8], pos: usize) -> (r: Result<(String, usize), WireError>)
    ensures
        text_matches(r, name_text(data@, pos as int)),
        r is Ok ==> pos < r->Ok_0.1 <= data@.len(),
{
    proof {
        lemma_name_end(data@, pos as int, pos as int);
    }
    into_text(name_bytes(data, pos, pos), Ghost(name_parts(data@, pos as int, pos as int)))
}

/// Follows a compression pointer: `length` is its first byte, `pos` the
/// position of its second. Gives the name it points to and the position after
/// the pointer. The target must lie before the pointer.
pub fn decode_compressed_name(length: u8, data: &[u8], pos: usize) -> (r: Result<
    (String, usize),
    WireError,
>)
    ensures
        text_matches(r, pointer_text(length, data@, pos as int)),
{
    if pos >= data.len() {
        return Err(WireError::UnexpectedEnd);
    }
    let t: usize = ((length % 64) as usize) * 256 + data[pos] as usize;
    if t + 1 >= pos {
        return Err(WireError::BadPointer);
    }
    let ghost m = name_parts(data@, t as int, t as int);
    match into_text(name_bytes(data, t, t), Ghost(m)) {
        Ok((s, _)) => Ok((s, pos + 1)),
        Err(x) => Err(x),
    }
}

/// Decodes the joined bytes of the name at `pos` without compression.
fn simple_name_bytes(data: &[u8], pos: usize) -> (r: Result<(Vec<u8>, usize), WireError>)
    ensures
        match simple_parts(data@, pos as int) {
            Ok((parts, e)) => r is Ok && r->Ok_0.0@ == join_dots(parts) && r->Ok_0.1 as int == e,
            Err(x) => r == Err::<(Vec<u8>, usize), WireError>(x),
        },
{
    let mut out: Vec<u8> = Vec::new();
    let ghost mut acc: Seq<Seq<u8>> = Seq::empty();
    let mut first = true;
    let mut p = pos;
    proof {
        match simple_parts(data@, p as int) {
            Ok((rest, e)) => {
                assert(acc + rest =~= rest);
            },
            Err(_) => {},
        }
    }
    loop
        invariant
            out@ == join_dots(acc),
            first <==> acc.len() == 0,
            p >= pos,
            simple_parts(data@, pos as int) == with_prefix(acc, simple_parts(data@, p as int)),
        decreases data@.len() - p,
    {
        if p >= data.len() {
            return Err(WireError::UnexpectedEnd);
        }
        let len = data[p];
        if len == 0 {
            proof {
                assert(acc + Seq::<Seq<u8>>::empty() =~= acc);
            }
            return Ok((out, p + 1));
        }
        if (len as usize) > data.len() - p - 1 {
            return Err(WireError::UnexpectedEnd);
        }
        let end = p + 1 + len as usize;
        push_part(&mut out, first, data, p + 1, end, Ghost(acc));
        proof {
            let lbl = data@.subrange(p + 1, end as int);
            match simple_parts(data@, end as int) {
                Ok((rest, e)) => {
                    assert(acc + (seq![lbl] + rest) =~= acc.push(lbl) + rest);
                },
                Err(_) => {},
            }
            acc = acc.push(lbl);
        }
        first = false;
        p = end;
    }
}

/// Decodes the name at `pos` as plain labels, with no compression; gives the
/// name and the position after it.
pub fn decode_name_simple(data: &[u8], pos: usize) -> (r: Result<(String, usize), WireError>)
    ensures
        text_matches(r, simple_name_text(data@, pos as int)),
        r is Ok ==> pos < r->Ok_0.1 <= data@.len(),
{
    proof {
        lemma_name_end(data@, pos as int, pos as int);
    }
    into_text(simple_name_bytes(data, pos), Ghost(simple_parts(data@, pos as int)))
}

/// Every label is nonempty and fits a length byte.
pub open spec fn labels_encodable(ls: Seq<Seq<u8>>) -> bool {
    forall|k: int| 0 <= k < ls.len() ==> 0 < #[trigger] ls[k].len() <= MAX_LABEL_LEN
}

proof fn lemma_labels_wire_first(ls: Seq<Seq<u8>>)
    requires
        ls.len() > 0,
    ensures
        labels_wire(ls) == seq![ls[0].len() as u8] + ls[0] + labels_wire(ls.drop_first()),
    decreases ls.len(),
{
    if ls.len() > 1 {
        lemma_labels_wire_first(ls.drop_last());
        assert(ls.drop_last().drop_first() =~= ls.drop_first().drop_last());
        assert(ls.drop_first().last() == ls.last());
        assert(labels_wire(ls.drop_first()) == labels_wire(ls.drop_first().drop_last()) + seq![
            ls.last().len() as u8,
        ] + ls.last());
        assert(labels_wire(ls) =~= seq![ls[0].len() as u8] + ls[0] + labels_wire(ls.drop_first()));
    } else {
        assert(ls.drop_last() =~= Seq::<Seq<u8>>::empty());
        assert(ls.drop_first() =~= Seq::<Seq<u8>>::empty());
        assert(labels_wire(ls) =~= seq![ls[0].len() as u8] + ls[0] + labels_wire(ls.drop_first()));
    }
}

/// Labels written by `labels_wire` and closed by a zero byte decode to those
/// labels, with compression or without.
proof fn lemma_labels_decode(data: Seq<u8>, start: int, pos: int, ls: Seq<Seq<u8>>)
    requires
        0 <= pos,
        pos + labels_wire(ls).len() < data.len(),
        data.subrange(pos, pos + labels_wire(ls).len()) == labels_wire(ls),
        data[pos + labels_wire(ls).len()] == 0,
        labels_encodable(ls),
    ensures
        name_parts(data, start, pos) == Ok::<(Seq<Seq<u8>>, int), WireError>(
            (ls, pos + labels_wire(ls).len() + 1),
        ),
        simple_parts(data, pos) == Ok::<(Seq<Seq<u8>>, int), WireError>(
            (ls, pos + labels_wire(ls).len() + 1),
        ),
    decreases ls.len(),
{
    let lw = labels_wire(ls);
    if ls.len() == 0 {
        assert(lw.len() == 0);
        assert(ls =~= Seq::<Seq<u8>>::empty());
    } else {
        lemma_labels_wire_first(ls);
        let l0 = ls[0];
        let rest = ls.drop_first();
        let end = pos + 1 + l0.len() as int;
        assert(0 < ls[0].len() <= MAX_LABEL_LEN);
        assert(data[pos] == lw[0]);
        assert(data[pos] == l0.len() as u8);
        assert(data.subrange(pos + 1, end) =~= lw.subrange(1, 1 + l0.len() as int));
        assert(lw.subrange(1, 1 + l0.len() as int) =~= l0);
        assert(labels_wire(rest) =~= lw.subrange(1 + l0.len() as int, lw.len() as int));
        assert(data.subrange(end, end + labels_wire(rest).len()) =~= labels_wire(rest));
        assert(labels_encodable(rest)) by {
            assert forall|k: int| 0 <= k < rest.len() implies 0 < #[trigger] rest[k].len()
                <= MAX_LABEL_LEN by {
                assert(rest[k] == ls[k + 1]);
            }
        }
        lemma_labels_decode(data, start, end, rest);
        assert(seq![l0] + rest =~= ls);
        assert(data[pos] != 0);
        assert(!is_pointer(data[pos]));
        assert(end == pos + 1 + data[pos] as int);
        assert(lw.len() == 1 + l0.len() + labels_wire(rest).len());
        assert(with_prefix(seq![l0], name_parts(data, start, end)) == Ok::<
            (Seq<Seq<u8>>, int),
            WireError,
        >((ls, pos + lw.len() + 1)));
        assert(with_prefix(seq![l0], simple_parts(data, end)) == Ok::<
            (Seq<Seq<u8>>, int),
            WireError,
        >((ls, pos + lw.len() + 1)));
    }
}

proof fn lemma_split_labels_join(b: Seq<u8>)
    ensures
        join_dots(split_dots(b)) == b,
    decreases b.len(),
{
    if b.len() > 0 {
        let init = split_dots(b.drop_last());
        lemma_split_labels_join(b.drop_last());
        lemma_split_nonempty(b.drop_last());
        if b.last() == DOT {
            lemma_join_push(init, Seq::<u8>::empty());
            assert(join_dots(init) + seq![DOT] + Seq::<u8>::empty() =~= b);
        } else {
            let nl = init.update(init.len() - 1, init.last().push(b.last()));
            assert(nl.drop_last() =~= init.drop_last());
            if init.len() == 1 {
                assert(nl[0] =~= b);
            } else {
                assert(join_dots(init) == join_dots(init.drop_last()) + seq![DOT] + init.last());
                assert(join_dots(nl) == join_dots(nl.drop_last()) + seq![DOT] + nl.last());
                assert(nl.last() == init.last().push(b.last()));
                assert(b =~= b.drop_last().push(b.last()));
                assert(join_dots(nl) =~= b);
            }
        }
    }
}

/// The wire form of a name with encodable labels, wherever it stands in a
/// buffer, decodes to the name's text and ends right after it.
pub proof fn lemma_name_text_at(data: Seq<u8>, pos: int, s: Seq<char>)
    requires
        labels_encodable(split_dots(encode_utf8(s))),
        0 <= pos,
        pos + name_wire(encode_utf8(s)).len() <= data.len(),
        data.subrange(pos, pos + name_wire(encode_utf8(s)).len()) == name_wire(encode_utf8(s)),
    ensures
        name_text(data, pos) == Ok::<(Seq<char>, int), WireError>(
            (s, pos + name_wire(encode_utf8(s)).len()),
        ),
        simple_name_text(data, pos) == Ok::<(Seq<char>, int), WireError>(
            (s, pos + name_wire(encode_utf8(s)).len()),
        ),
{
    let b = encode_utf8(s);
    let ls = split_dots(b);
    let w = name_wire(b);
    let n = labels_wire(ls).len() as int;
    assert(data.subrange(pos, pos + n) =~= w.subrange(0, n));
    assert(w.subrange(0, n) =~= labels_wire(ls));
    assert(data[pos + n] == w[n]);
    lemma_labels_decode(data, pos, pos, ls);
    lemma_split_labels_join(b);
    vstd::utf8::encode_utf8_valid_utf8(s);
    vstd::utf8::encode_utf8_decode_utf8(s);
}

/// Decoding undoes encoding: a name whose labels are all nonempty and at most
/// 63 bytes long, once encoded, decodes to the same text (with compression or
/// without), and the decoder stops right after the closing zero byte.
pub proof fn lemma_name_round_trip(s: Seq<char>)
    requires
        labels_encodable(split_dots(encode_utf8(s))),
    ensures
        name_text(name_wire(encode_utf8(s)), 0) == Ok::<(Seq<char>, int), WireError>(
            (s, name_wire(encode_utf8(s)).len() as int),
        ),
        simple_name_text(name_wire(encode_utf8(s)), 0) == Ok::<(Seq<char>, int), WireError>(
            (s, name_wire(encode_utf8(s)).len() as int),
        ),
{
    let w = name_wire(encode_utf8(s));
    assert(w.subrange(0, w.len() as int) =~= w);
    lemma_name_text_at(w, 0, s);
}

/// A compression pointer decodes to the name it points to: where a pointer at
/// `b` points to `a`, before it, the name at `b` has the text of the name at `a`
/// (or fails as that one does), and ends after the two pointer bytes.
pub proof fn lemma_pointer_decodes_as_target(data: Seq<u8>, a: int, b: int)
    requires
        0 <= a < b,
        b + 1 < data.len(),
        is_pointer(data[b]),
        pointer_offset(data[b], data[b + 1]) == a,
    ensures
        name_text(data, b) == match name_text(data, a) {
            Ok((t, _)) => Ok::<(Seq<char>, int), WireError>((t, b + 2)),
            Err(x) => Err(x),
        },
{
    match name_parts(data, a, a) {
        Ok((parts, _)) => {
            assert(join_dots(seq![join_dots(parts)]) == join_dots(parts));
        },
        Err(_) => {},
    }
}

} // verus!
