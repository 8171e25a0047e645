//! The protocol-buffer wire format, as far as Kythe's messages need it:
//! varints, and messages made of fields.

use vstd::prelude::*;

verus! {

/// Why bytes are not a message.
#[derive(Clone, Copy, Debug, PartialEq, Eq)]
pub enum WireError {
    /// The buffer ended inside a varint, at byte `at`.
    TruncatedVarint { at: usize },
    /// Ten bytes without one that ends the varint.
    VarintTooLong,
    /// A field of a wire type that the message does not have there; `at` is the
    /// byte behind its tag.
    WireType { wire: u8, field: u32, at: usize },
    /// A length that no buffer can hold.
    LengthOverflow,
    /// A field, starting at byte `at`, that runs past the buffer.
    TruncatedField { at: usize },
}

/// The most bytes that a varint may have.
pub const VARINT_MAX: usize = 10;

// ---------------------------------------------------------------- varints

/// The varint at `pos`, read from at most `fuel` bytes: its value and the
/// position behind it. Each byte holds seven bits, the low ones first, and
/// the high bit marks that more bytes follow.
pub open spec fn varint_within(buf: Seq<u8>, pos: int, fuel: nat) -> Result<
    (u64, int),
    WireError,
>
    decreases fuel,
{
    if fuel == 0 {
        Err(WireError::VarintTooLong)
    } else if pos >= buf.len() {
        Err(WireError::TruncatedVarint { at: pos as usize })
    } else if buf[pos] < 0x80 {
        Ok((buf[pos] as u64, pos + 1))
    } else {
        match varint_within(buf, pos + 1, (fuel - 1) as nat) {
            Err(e) => Err(e),
            Ok((rest, end)) => Ok((((buf[pos] & 0x7f) as u64) | (rest << 7), end)),
        }
    }
}

/// The varint at `pos`.
pub open spec fn varint_at(buf: Seq<u8>, pos: int) -> Result<(u64, int), WireError> {
    varint_within(buf, pos, VARINT_MAX as nat)
}

/// The shortest varint for `v`.
pub open spec fn varint_bytes(v: u64) -> Seq<u8>
    decreases v,
{
    if v < 0x80 {
        seq![v as u8]
    } else {
        seq![((v as u8) & 0x7f) | 0x80] + varint_bytes(v / 128)
    }
}

/// A varint ends inside the buffer, behind where it started.
pub proof fn lemma_varint_bounds(buf: Seq<u8>, pos: int, fuel: nat)
    requires
        0 <= pos <= buf.len(),
    ensures
        varint_within(buf, pos, fuel) matches Ok((v, end)) ==> pos < end <= buf.len() && end <= pos
            + fuel,
    decreases fuel,
{
    if fuel > 0 && pos < buf.len() && buf[pos] >= 0x80 {
        lemma_varint_bounds(buf, pos + 1, (fuel - 1) as nat);
    }
}

/// Reads the varint at `pos`.
pub fn read_varint_at(buf: &[u8], pos: usize) -> (r: Result<(u64, usize), WireError>)
    requires
        pos <= buf@.len(),
    ensures
        r matches Ok((v, end)) ==> varint_at(buf@, pos as int) == Ok::<(u64, int), WireError>(
            (v, end as int),
        ) && pos < end <= buf@.len(),
        r matches Err(e) ==> varint_at(buf@, pos as int) == Err::<(u64, int), WireError>(e),
{
    let mut val: u64 = 0;
    let mut shift: u64 = 0;
    let mut p: usize = pos;
    let mut left: usize = VARINT_MAX;
    proof {
        assert(forall|v: u64| (0u64 | #[trigger] (v << 0u64)) == v) by (bit_vector);
    }
    while left > 0
        invariant
            pos <= p <= buf@.len(),
            p - pos == VARINT_MAX - left,
            left <= VARINT_MAX,
            shift == 7 * (VARINT_MAX - left),
            varint_within(buf@, p as int, left as nat) matches Ok((rest, end)) ==> varint_at(
                buf@,
                pos as int,
            ) == Ok::<(u64, int), WireError>((val | (rest << shift), end)),
            varint_within(buf@, p as int, left as nat) matches Err(e) ==> varint_at(
                buf@,
                pos as int,
            ) == Err::<(u64, int), WireError>(e),
        decreases left,
    {
        if p >= buf.len() {
            return Err(WireError::TruncatedVarint { at: p });
        }
        let b: u8 = buf[p];
        let low: u64 = (b & 0x7F) as u64;
        let ghost old_val = val;
        let next: u64 = val | (low << shift);
        if b & 0x80 == 0 {
            proof {
                assert(b & 0x80 == 0 ==> b < 0x80 && (b & 0x7f) == b) by (bit_vector);
            }
            return Ok((next, p + 1));
        }
        proof {
            assert(b & 0x80 != 0 ==> b >= 0x80) by (bit_vector);
            if let Ok((rest, end)) = varint_within(buf@, p + 1, (left - 1) as nat) {
                lemma_shift_step(old_val, low, rest, shift);
            }
        }
        val = next;
        shift = shift + 7;
        p = p + 1;
        left = left - 1;
    }
    Err(WireError::VarintTooLong)
}

spec fn add7(shift: u64) -> u64 {
    (shift + 7) as u64
}

proof fn lemma_shift_step(val: u64, low: u64, rest: u64, shift: u64)
    requires
        shift <= 63,
    ensures
        (val | ((low | (rest << 7)) << shift)) == ((val | (low << shift)) | (rest << add7(shift))),
{
    let s2: u64 = add7(shift);
    assert((val | ((low | (rest << 7)) << shift)) == ((val | (low << shift)) | (rest << s2)))
        by (bit_vector)
        requires
            shift <= 63,
            s2 == shift + 7,
    ;
}

/// The first of a varint's bytes holds its low seven bits.
proof fn lemma_varint_split(v: u64)
    requires
        v >= 0x80,
    ensures
        ({
            let b: u8 = ((v as u8) & 0x7f) | 0x80;
            &&& b >= 0x80
            &&& (((b & 0x7f) as u64) | ((v / 128) << 7)) == v
        }),
{
    let q: u64 = v / 128;
    assert(q == v >> 7) by (bit_vector)
        requires
            q == v / 128,
    ;
    let b: u8 = ((v as u8) & 0x7f) | 0x80;
    assert(b >= 0x80) by (bit_vector)
        requires
            b == ((v as u8) & 0x7f) | 0x80,
    ;
    assert((((b & 0x7f) as u64) | (q << 7)) == v) by (bit_vector)
        requires
            b == ((v as u8) & 0x7f) | 0x80,
            q == v >> 7,
    ;
}

/// No varint needs more than ten bytes.
pub proof fn lemma_varint_bytes_len(v: u64)
    ensures
        1 <= varint_bytes(v).len() <= VARINT_MAX,
{
    reveal_with_fuel(varint_bytes, 11);
}

/// A varint reads back as the value that was written.
pub proof fn lemma_varint_round_trip(buf: Seq<u8>, pos: int, v: u64, fuel: nat)
    requires
        0 <= pos,
        pos + varint_bytes(v).len() <= buf.len(),
        buf.subrange(pos, pos + varint_bytes(v).len()) == varint_bytes(v),
        varint_bytes(v).len() <= fuel,
    ensures
        varint_within(buf, pos, fuel) == Ok::<(u64, int), WireError>(
            (v, pos + varint_bytes(v).len()),
        ),
    decreases v,
{
    let enc = varint_bytes(v);
    assert(enc[0] == buf[pos]) by {
        assert(buf.subrange(pos, pos + enc.len())[0] == buf[pos]);
    }
    if v >= 0x80 {
        let rest = varint_bytes(v / 128);
        assert(rest =~= enc.drop_first());
        assert(buf.subrange(pos + 1, pos + 1 + rest.len()) =~= rest) by {
            assert(forall|i: int|
                0 <= i < rest.len() ==> rest[i] == enc[i + 1] && enc[i + 1] == buf.subrange(
                    pos,
                    pos + enc.len(),
                )[i + 1]);
        }
        lemma_varint_round_trip(buf, pos + 1, v / 128, (fuel - 1) as nat);
        lemma_varint_split(v);
    }
}

/// Appends the varint of `v` to `out`.
pub fn write_varint(v: u64, out: &mut Vec<u8>)
    ensures
        final(out)@ == old(out)@ + varint_bytes(v),
{
    let mut left: u64 = v;
    while left >= 0x80
        invariant
            old(out)@ + varint_bytes(v) == out@ + varint_bytes(left),
        decreases left,
    {
        let ghost before = out@;
        out.push(((left as u8) & 0x7F) | 0x80);
        proof {
            let q: u64 = left / 128;
            assert(q == left >> 7) by (bit_vector)
                requires
                    q == left / 128,
            ;
            assert(before + varint_bytes(left) =~= out@ + varint_bytes(q));
        }
        left = left >> 7;
    }
    proof {
        assert(out@ + varint_bytes(left) =~= out@.push(left as u8));
    }
    out.push(left as u8);
}

// ----------------------------------------------------------------- fields

/// The field at `pos`: its number, its wire type, and where its value starts
/// and ends. Fields are length-delimited, and the length is not part of the
/// value. Only the field `flag`, where the message has one, may be a varint.
pub open spec fn field_at(buf: Seq<u8>, pos: int, flag: Option<u32>) -> Result<
    (u32, u8, int, int),
    WireError,
> {
    match varint_at(buf, pos) {
        Err(e) => Err(e),
        Ok((tag, behind_tag)) => {
            let field = (tag >> 3) as u32;
            let wire = (tag & 0x7) as u8;
            if wire == 2 {
                match varint_at(buf, behind_tag) {
                    Err(e) => Err(e),
                    Ok((len, start)) => {
                        let end = start + (len as usize);
                        if end > usize::MAX {
                            Err(WireError::LengthOverflow)
                        } else if end > buf.len() {
                            Err(WireError::TruncatedField { at: start as usize })
                        } else {
                            Ok((field, wire, start, end))
                        }
                    },
                }
            } else if wire == 0 && flag == Some(field) {
                match varint_at(buf, behind_tag) {
                    Err(e) => Err(e),
                    Ok((_, end)) => Ok((field, wire, behind_tag, end)),
                }
            } else {
                Err(WireError::WireType { wire, field, at: behind_tag as usize })
            }
        },
    }
}

/// A field lies inside the buffer and is never empty.
pub proof fn lemma_field_bounds(buf: Seq<u8>, pos: int, flag: Option<u32>)
    requires
        0 <= pos <= buf.len(),
    ensures
        field_at(buf, pos, flag) matches Ok((_, _, start, end)) ==> pos < start <= end
            <= buf.len(),
{
    lemma_varint_bounds(buf, pos, VARINT_MAX as nat);
    if let Ok((tag, behind_tag)) = varint_at(buf, pos) {
        lemma_varint_bounds(buf, behind_tag, VARINT_MAX as nat);
    }
}

/// Reads the field at `pos`.
pub fn read_field(buf: &[u8], pos: usize, flag: Option<u32>) -> (r: Result<
    (u32, u8, usize, usize),
    WireError,
>)
    requires
        pos <= buf@.len(),
    ensures
        r matches Ok((field, wire, start, end)) ==> field_at(buf@, pos as int, flag) == Ok::<
            (u32, u8, int, int),
            WireError,
        >((field, wire, start as int, end as int)) && pos < start <= end <= buf@.len(),
        r matches Err(e) ==> field_at(buf@, pos as int, flag) == Err::<
            (u32, u8, int, int),
            WireError,
        >(e),
{
    let (tag, behind_tag) = match read_varint_at(buf, pos) {
        Ok(t) => t,
        Err(e) => return Err(e),
    };
    let field: u32 = (tag >> 3) as u32;
    let wire: u8 = (tag & 0x7) as u8;
    if wire == 2 {
        let (len, start) = match read_varint_at(buf, behind_tag) {
            Ok(t) => t,
            Err(e) => return Err(e),
        };
        match start.checked_add(len as usize) {
            None => Err(WireError::LengthOverflow),
            Some(end) => {
                if end > buf.len() {
                    Err(WireError::TruncatedField { at: start })
                } else {
                    Ok((field, wire, start, end))
                }
            },
        }
    } else if wire == 0 && is_flag(flag, field) {
        match read_varint_at(buf, behind_tag) {
            Ok((_, end)) => Ok((field, wire, behind_tag, end)),
            Err(e) => Err(e),
        }
    } else {
        Err(WireError::WireType { wire, field, at: behind_tag })
    }
}

fn is_flag(flag: Option<u32>, field: u32) -> (r: bool)
    ensures
        r == (flag == Some(field)),
{
    match flag {
        Some(f) => f == field,
        None => false,
    }
}

/// What is left when each length-delimited field of the message from `pos` on
/// has been taken in, one after the other. A varint in the field `flag` is
/// passed over. The first field that is malformed, or that `step` refuses, ends
/// it.
pub open spec fn fold_fields<A>(
    buf: Seq<u8>,
    pos: nat,
    flag: Option<u32>,
    acc: A,
    step: spec_fn(A, u32, Seq<u8>) -> Result<A, WireError>,
) -> Result<A, WireError>
    decreases buf.len() - pos,
{
    if pos >= buf.len() {
        Ok(acc)
    } else {
        match field_at(buf, pos as int, flag) {
            Err(e) => Err(e),
            Ok((field, wire, start, end)) => {
                proof {
                    lemma_field_bounds(buf, pos as int, flag);
                }
                if wire != 2 {
                    fold_fields(buf, end as nat, flag, acc, step)
                } else {
                    match step(acc, field, buf.subrange(start, end)) {
                        Err(e) => Err(e),
                        Ok(next) => fold_fields(buf, end as nat, flag, next, step),
                    }
                }
            },
        }
    }
}

/// The same over fields that are already taken apart.
pub open spec fn fold_list<A>(
    fields: Seq<(u32, Seq<u8>)>,
    acc: A,
    step: spec_fn(A, u32, Seq<u8>) -> Result<A, WireError>,
) -> Result<A, WireError>
    decreases fields.len(),
{
    if fields.len() == 0 {
        Ok(acc)
    } else {
        match step(acc, fields[0].0, fields[0].1) {
            Err(e) => Err(e),
            Ok(next) => fold_list(fields.drop_first(), next, step),
        }
    }
}

/// One field on the wire: tag, length, payload.
pub open spec fn field_bytes(field: u32, data: Seq<u8>) -> Seq<u8> {
    varint_bytes(((field as u64) << 3) | 2) + varint_bytes(data.len() as u64) + data
}

/// A message on the wire: its fields, one behind the other.
pub open spec fn message_bytes(fields: Seq<(u32, Seq<u8>)>) -> Seq<u8>
    decreases fields.len(),
{
    if fields.len() == 0 {
        seq![]
    } else {
        message_bytes(fields.drop_last()) + field_bytes(fields.last().0, fields.last().1)
    }
}

/// Appends one field to `out`.
pub fn write_tag_len(field: u32, data: &[u8], out: &mut Vec<u8>)
    ensures
        final(out)@ == old(out)@ + field_bytes(field, data@),
{
    write_varint(((field as u64) << 3) | 2, out);
    write_varint(data.len() as u64, out);
    let ghost before = out@;
    out.extend_from_slice(data);
    proof {
        assert(out@ =~= before + data@);
        assert(old(out)@ + field_bytes(field, data@) =~= out@);
    }
}

/// A message of two runs of fields is the two messages, one behind the other.
pub proof fn lemma_message_concat(a: Seq<(u32, Seq<u8>)>, b: Seq<(u32, Seq<u8>)>)
    ensures
        message_bytes(a + b) == message_bytes(a) + message_bytes(b),
    decreases b.len(),
{
    if b.len() == 0 {
        assert(a + b =~= a);
        assert(message_bytes(a) + message_bytes(b) =~= message_bytes(a));
    } else {
        assert((a + b).drop_last() =~= a + b.drop_last());
        lemma_message_concat(a, b.drop_last());
        assert(message_bytes(a + b) =~= message_bytes(a) + message_bytes(b));
    }
}

/// A message with one field more in front.
pub proof fn lemma_message_first(fields: Seq<(u32, Seq<u8>)>)
    requires
        fields.len() > 0,
    ensures
        message_bytes(fields) == field_bytes(fields[0].0, fields[0].1) + message_bytes(
            fields.drop_first(),
        ),
{
    let one = seq![fields[0]];
    assert(one + fields.drop_first() =~= fields);
    lemma_message_concat(one, fields.drop_first());
    lemma_message_one(fields[0].0, fields[0].1);
}

/// A message of one field.
pub proof fn lemma_message_one(field: u32, data: Seq<u8>)
    ensures
        message_bytes(seq![(field, data)]) == field_bytes(field, data),
{
    let one = seq![(field, data)];
    assert(one.drop_last() =~= seq![]);
    assert(message_bytes(one.drop_last()) =~= seq![]);
    assert(message_bytes(one) =~= field_bytes(field, data));
}

/// A field reads back as it was written.
pub proof fn lemma_field_round_trip(
    buf: Seq<u8>,
    pos: int,
    flag: Option<u32>,
    field: u32,
    data: Seq<u8>,
)
    requires
        0 <= pos,
        buf.len() <= usize::MAX,
        field < 0x2000_0000,
        pos + field_bytes(field, data).len() <= buf.len(),
        buf.subrange(pos, pos + field_bytes(field, data).len()) == field_bytes(field, data),
    ensures
        field_at(buf, pos, flag) == Ok::<(u32, u8, int, int), WireError>(
            (
                field,
                2u8,
                pos + field_bytes(field, data).len() - data.len(),
                pos + field_bytes(field, data).len(),
            ),
        ),
        buf.subrange(
            pos + field_bytes(field, data).len() - data.len(),
            pos + field_bytes(field, data).len(),
        ) == data,
{
    let tag: u64 = ((field as u64) << 3) | 2;
    let t = varint_bytes(tag);
    let l = varint_bytes(data.len() as u64);
    let enc = field_bytes(field, data);
    assert(enc.len() == t.len() + l.len() + data.len());
    let whole = buf.subrange(pos, pos + enc.len());
    assert(buf.subrange(pos, pos + t.len()) =~= t) by {
        assert(whole.subrange(0, t.len() as int) =~= t);
    }
    assert(buf.subrange(pos + t.len(), pos + t.len() + l.len()) =~= l) by {
        assert(whole.subrange(t.len() as int, (t.len() + l.len()) as int) =~= l);
    }
    assert(buf.subrange(pos + t.len() + l.len(), pos + enc.len()) =~= data) by {
        assert(whole.subrange((t.len() + l.len()) as int, enc.len() as int) =~= data);
    }
    lemma_varint_bytes_len(tag);
    lemma_varint_bytes_len(data.len() as u64);
    lemma_varint_round_trip(buf, pos, tag, VARINT_MAX as nat);
    lemma_varint_round_trip(buf, pos + t.len(), data.len() as u64, VARINT_MAX as nat);
    assert((tag >> 3) as u32 == field && (tag & 0x7) as u8 == 2) by (bit_vector)
        requires
            tag == ((field as u64) << 3) | 2,
            field < 0x2000_0000,
    ;
}

/// Reading a written message takes in exactly the fields that were written,
/// in their order.
pub proof fn lemma_message_round_trip<A>(
    buf: Seq<u8>,
    pos: nat,
    flag: Option<u32>,
    fields: Seq<(u32, Seq<u8>)>,
    acc: A,
    step: spec_fn(A, u32, Seq<u8>) -> Result<A, WireError>,
)
    requires
        pos <= buf.len() <= usize::MAX,
        forall|i: int| 0 <= i < fields.len() ==> (#[trigger] fields[i]).0 < 0x2000_0000,
        buf.subrange(pos as int, buf.len() as int) == message_bytes(fields),
    ensures
        fold_fields(buf, pos, flag, acc, step) == fold_list(fields, acc, step),
    decreases fields.len(),
{
    if fields.len() == 0 {
        assert(buf.subrange(pos as int, buf.len() as int).len() == 0);
    } else {
        let (f, d) = fields[0];
        let enc = field_bytes(f, d);
        let rest = fields.drop_first();
        lemma_message_first(fields);
        let tail = buf.subrange(pos as int, buf.len() as int);
        lemma_varint_bytes_len(((f as u64) << 3) | 2);
        assert(enc.len() > 0);
        assert(tail.len() == enc.len() + message_bytes(rest).len());
        assert(buf.subrange(pos as int, (pos + enc.len()) as int) =~= enc) by {
            assert(tail.subrange(0, enc.len() as int) =~= enc);
        }
        lemma_field_round_trip(buf, pos as int, flag, f, d);
        let end: nat = pos + enc.len();
        assert(buf.subrange(end as int, buf.len() as int) =~= message_bytes(rest)) by {
            assert(tail.subrange(enc.len() as int, tail.len() as int) =~= message_bytes(rest));
        }
        assert forall|i: int| 0 <= i < rest.len() implies (#[trigger] rest[i]).0
            < 0x2000_0000 by {
            assert(rest[i] == fields[i + 1]);
        }
        if let Ok(next) = step(acc, f, d) {
            lemma_message_round_trip(buf, end, flag, rest, next, step);
        }
    }
}

/// Taking in two runs of fields is taking in the first and then the second.
pub proof fn lemma_fold_list_concat<A>(
    a: Seq<(u32, Seq<u8>)>,
    b: Seq<(u32, Seq<u8>)>,
    acc: A,
    step: spec_fn(A, u32, Seq<u8>) -> Result<A, WireError>,
)
    ensures
        fold_list(a + b, acc, step) == (match fold_list(a, acc, step) {
            Err(e) => Err(e),
            Ok(next) => fold_list(b, next, step),
        }),
    decreases a.len(),
{
    if a.len() == 0 {
        assert(a + b =~= b);
    } else {
        assert((a + b).drop_first() =~= a.drop_first() + b);
        if let Ok(next) = step(acc, a[0].0, a[0].1) {
            lemma_fold_list_concat(a.drop_first(), b, next, step);
        }
    }
}

// -------------------------------------------------- fields of every kind

/// The position behind a field's value, where the value lies inside the
/// buffer and its wire type is known.
pub open spec fn behind_value(buf: Seq<u8>, pos: int, wire: u8) -> Option<int> {
    if wire == 0 {
        match varint_at(buf, pos) {
            Ok((_, end)) => Some(end),
            Err(_) => None,
        }
    } else if wire == 1 {
        if pos + 8 <= buf.len() {
            Some(pos + 8)
        } else {
            None
        }
    } else if wire == 2 {
        match varint_at(buf, pos) {
            Ok((len, start)) => if start + (len as usize) <= buf.len() {
                Some(start + (len as usize))
            } else {
                None
            },
            Err(_) => None,
        }
    } else if wire == 5 {
        if pos + 4 <= buf.len() {
            Some(pos + 4)
        } else {
            None
        }
    } else {
        None
    }
}

/// The position behind a field's value.
pub fn skip_proto_field(bytes: &[u8], cur: usize, wire: u8) -> (r: Option<usize>)
    requires
        cur <= bytes@.len(),
    ensures
        r matches Some(end) ==> behind_value(bytes@, cur as int, wire) == Some(end as int) && cur
            <= end <= bytes@.len(),
        r is None ==> behind_value(bytes@, cur as int, wire) is None,
{
    if wire == 0 {
        match read_varint_at(bytes, cur) {
            Ok((_, end)) => Some(end),
            Err(_) => None,
        }
    } else if wire == 1 {
        if bytes.len() - cur >= 8 {
            Some(cur + 8)
        } else {
            None
        }
    } else if wire == 2 {
        match read_varint_at(bytes, cur) {
            Ok((len, start)) => if bytes.len() - start >= len as usize {
                Some(start + len as usize)
            } else {
                None
            },
            Err(_) => None,
        }
    } else if wire == 5 {
        if bytes.len() - cur >= 4 {
            Some(cur + 4)
        } else {
            None
        }
    } else {
        None
    }
}

// ------------------------------------------------------------------- laws

/// What a varint is, in numbers: a value below 128 is one byte, and any other
/// is a byte of its remainder by 128, marked by 128 more, before the varint of
/// its quotient.
pub proof fn lemma_varint_bytes_are(v: u64)
    ensures
        v < 128 ==> varint_bytes(v) == seq![v as u8],
        v >= 128 ==> varint_bytes(v) == seq![(128 + v % 128) as u8] + varint_bytes(v / 128),
{
    if v >= 128 {
        let b: u8 = ((v as u8) & 0x7f) | 0x80;
        assert(b as u64 == 128 + v % 128) by (bit_vector)
            requires
                b == ((v as u8) & 0x7f) | 0x80,
        ;
    }
}

/// What a varint that is read says, in numbers: the first byte below 128 ends
/// it, ten bytes are the most that it has, and the bytes count by powers of
/// 128, the first one least.
pub proof fn lemma_varint_reads(buf: Seq<u8>, pos: int)
    requires
        0 <= pos,
    ensures
        pos < buf.len() && buf[pos] < 128 ==> varint_at(buf, pos) == Ok::<(u64, int), WireError>(
            (buf[pos] as u64, pos + 1),
        ),
        varint_at(buf, pos) matches Ok((v, end)) ==> {
            &&& pos < end <= pos + 10
            &&& end <= buf.len()
            &&& buf[end - 1] < 128
            &&& forall|i: int| pos <= i < end - 1 ==> #[trigger] buf[i] >= 128
            &&& v % 128 == buf[pos] % 128
        },
        pos + 10 <= buf.len() && (forall|i: int| pos <= i < pos + 10 ==> #[trigger] buf[i] >= 128)
            ==> varint_at(buf, pos) == Err::<(u64, int), WireError>(WireError::VarintTooLong),
        pos >= buf.len() ==> varint_at(buf, pos) is Err,
{
    lemma_varint_reads_within(buf, pos, 10);
    assert(varint_at(buf, pos) == varint_within(buf, pos, 10));
    if let Ok((v, end)) = varint_at(buf, pos) {
        if buf[pos] >= 128 {
            let rest = varint_within(buf, pos + 1, 9)->Ok_0.0;
            let b = buf[pos];
            assert((((b & 0x7f) as u64) | (rest << 7)) % 128 == b % 128) by (bit_vector);
        }
    }
}

proof fn lemma_varint_reads_within(buf: Seq<u8>, pos: int, fuel: nat)
    requires
        0 <= pos,
    ensures
        varint_within(buf, pos, fuel) matches Ok((v, end)) ==> {
            &&& pos < end <= pos + fuel
            &&& end <= buf.len()
            &&& buf[end - 1] < 128
            &&& forall|i: int| pos <= i < end - 1 ==> #[trigger] buf[i] >= 128
        },
        pos + fuel <= buf.len() && (forall|i: int|
            pos <= i < pos + fuel ==> #[trigger] buf[i] >= 128) ==> varint_within(buf, pos, fuel) == Err::<(u64, int), WireError>(
            WireError::VarintTooLong,
        ),
    decreases fuel,
{
    if fuel > 0 && pos < buf.len() && buf[pos] >= 0x80 {
        lemma_varint_reads_within(buf, pos + 1, (fuel - 1) as nat);
    }
}

/// What a field is on the wire: eight times its number and two as a varint, the
/// length of its payload as a varint, and the payload. For a number below 16
/// the tag is one byte.
pub proof fn lemma_field_bytes_are(field: u32, data: Seq<u8>)
    requires
        field < 0x2000_0000,
    ensures
        field_bytes(field, data) == varint_bytes((8 * field + 2) as u64) + varint_bytes(
            data.len() as u64,
        ) + data,
        field < 16 ==> field_bytes(field, data) == seq![(8 * field + 2) as u8] + varint_bytes(
            data.len() as u64,
        ) + data,
{
    let n: u64 = field as u64;
    assert(((n << 3) | 2) == 8 * n + 2) by (bit_vector)
        requires
            n < 0x2000_0000,
    ;
}

/// A varint that ends inside a buffer is the same where more follows.
pub proof fn lemma_varint_extends(buf: Seq<u8>, more: Seq<u8>, pos: int, fuel: nat)
    requires
        0 <= pos,
        varint_within(buf, pos, fuel) is Ok,
    ensures
        varint_within(buf + more, pos, fuel) == varint_within(buf, pos, fuel),
    decreases fuel,
{
    if buf[pos] >= 0x80 {
        lemma_varint_extends(buf, more, pos + 1, (fuel - 1) as nat);
    }
}

/// A message that reads to its end, with more behind it: the fields of what is
/// behind it are taken in after its own.
pub proof fn lemma_fold_extends<A>(
    buf: Seq<u8>,
    more: Seq<u8>,
    pos: nat,
    flag: Option<u32>,
    acc: A,
    step: spec_fn(A, u32, Seq<u8>) -> Result<A, WireError>,
)
    requires
        pos <= buf.len(),
        (buf + more).len() <= usize::MAX,
        fold_fields(buf, pos, flag, acc, step) is Ok,
    ensures
        fold_fields(buf + more, pos, flag, acc, step) == fold_fields(
            buf + more,
            buf.len(),
            flag,
            fold_fields(buf, pos, flag, acc, step)->Ok_0,
            step,
        ),
    decreases buf.len() - pos,
{
    if pos < buf.len() {
        let all = buf + more;
        let (field, wire, start, end) = field_at(buf, pos as int, flag)->Ok_0;
        lemma_field_bounds(buf, pos as int, flag);
        lemma_varint_extends(buf, more, pos as int, VARINT_MAX as nat);
        lemma_varint_bounds(buf, pos as int, VARINT_MAX as nat);
        let behind_tag = varint_at(buf, pos as int)->Ok_0.1;
        lemma_varint_extends(buf, more, behind_tag, VARINT_MAX as nat);
        assert(field_at(all, pos as int, flag) == field_at(buf, pos as int, flag));
        assert(all.subrange(start, end) =~= buf.subrange(start, end));
        let next = if wire == 2 {
            step(acc, field, buf.subrange(start, end))->Ok_0
        } else {
            acc
        };
        lemma_fold_extends(buf, more, end as nat, flag, next, step);
    }
}

/// One field more at the end of a message that reads to its end is taken in
/// last.
pub proof fn lemma_fold_field<A>(
    buf: Seq<u8>,
    field: u32,
    data: Seq<u8>,
    flag: Option<u32>,
    acc: A,
    step: spec_fn(A, u32, Seq<u8>) -> Result<A, WireError>,
)
    requires
        field < 0x2000_0000,
        (buf + field_bytes(field, data)).len() <= usize::MAX,
        fold_fields(buf, 0, flag, acc, step) is Ok,
    ensures
        fold_fields(buf + field_bytes(field, data), 0, flag, acc, step) == step(
            fold_fields(buf, 0, flag, acc, step)->Ok_0,
            field,
            data,
        ),
{
    let more = field_bytes(field, data);
    let all = buf + more;
    let now = fold_fields(buf, 0, flag, acc, step)->Ok_0;
    lemma_fold_extends(buf, more, 0, flag, acc, step);
    let fields = seq![(field, data)];
    lemma_message_one(field, data);
    assert(all.subrange(buf.len() as int, all.len() as int) =~= more);
    lemma_message_round_trip(all, buf.len(), flag, fields, now, step);
    assert(fields.drop_first() =~= seq![]);
    assert(fields[0] == (field, data));
    if let Ok(next) = step(now, field, data) {
        assert(fold_list(fields.drop_first(), next, step) == Ok::<A, WireError>(next));
    }
}

/// A varint field at the end of a message that reads to its end: the field
/// `flag` changes nothing, and any other one is refused, as is every wire type
/// but the length-delimited one.
pub proof fn lemma_fold_other<A>(
    buf: Seq<u8>,
    tag: u8,
    more: Seq<u8>,
    flag: Option<u32>,
    acc: A,
    step: spec_fn(A, u32, Seq<u8>) -> Result<A, WireError>,
)
    requires
        tag < 128,
        tag % 8 != 2,
        (buf + seq![tag] + more).len() <= usize::MAX,
        fold_fields(buf, 0, flag, acc, step) is Ok,
    ensures
        tag % 8 != 0 || flag != Some((tag / 8) as u32) ==> fold_fields(
            buf + seq![tag] + more,
            0,
            flag,
            acc,
            step,
        ) is Err,
        tag % 8 == 0 && flag == Some((tag / 8) as u32) && more.len() == 1 && more[0] < 128
            ==> fold_fields(buf + seq![tag] + more, 0, flag, acc, step) == fold_fields(
            buf,
            0,
            flag,
            acc,
            step,
        ),
{
    let rest = seq![tag] + more;
    let all = buf + rest;
    let n = buf.len() as int;
    assert(buf + seq![tag] + more =~= all);
    lemma_fold_extends(buf, rest, 0, flag, acc, step);
    assert(all[n] == tag);
    assert(varint_at(all, n) == Ok::<(u64, int), WireError>((tag as u64, n + 1)));
    let t: u64 = tag as u64;
    assert((t >> 3) as u32 == t / 8 && (t & 0x7) as u8 == t % 8) by (bit_vector)
        requires
            t < 128,
    ;
    if more.len() == 1 {
        assert(all[n + 1] == more[0]);
        if more[0] < 128 {
            assert(varint_at(all, n + 1) == Ok::<(u64, int), WireError>((more[0] as u64, n + 2)));
            if tag % 8 == 0 && flag == Some((tag / 8) as u32) {
                assert(field_at(all, n, flag) == Ok::<(u32, u8, int, int), WireError>(
                    ((tag / 8) as u32, 0u8, n + 1, n + 2),
                ));
                let now = fold_fields(buf, 0, flag, acc, step)->Ok_0;
                assert(fold_fields(all, (n + 2) as nat, flag, now, step) == Ok::<A, WireError>(now));
            }
        }
    }
}

/// Where the value of a field ends: a varint behind its last byte, the
/// fixed-size ones behind eight and four bytes, and a length-delimited one
/// behind as many bytes as its length says; no other wire type has a value.
pub proof fn lemma_behind_value_is(buf: Seq<u8>, pos: int, wire: u8)
    requires
        0 <= pos <= buf.len() <= usize::MAX,
    ensures
        wire == 0 ==> behind_value(buf, pos, wire) == (match varint_at(buf, pos) {
            Ok((_, end)) => Some(end),
            Err(_) => None,
        }),
        wire == 1 ==> (behind_value(buf, pos, wire) == Some(pos + 8) <==> pos + 8 <= buf.len()),
        wire == 5 ==> (behind_value(buf, pos, wire) == Some(pos + 4) <==> pos + 4 <= buf.len()),
        wire == 2 ==> (behind_value(buf, pos, wire) matches Some(end) ==> varint_at(buf, pos)
            matches Ok((len, start)) && end == start + len as usize && end <= buf.len()),
        wire == 3 || wire == 4 || wire > 5 ==> behind_value(buf, pos, wire) is None,
        behind_value(buf, pos, wire) matches Some(end) ==> end <= buf.len(),
        wire == 2 && varint_at(buf, pos) is Ok && varint_at(buf, pos)->Ok_0.1 + (varint_at(
            buf,
            pos,
        )->Ok_0.0 as usize) <= buf.len() ==> behind_value(buf, pos, wire) is Some,
{
    lemma_varint_bounds(buf, pos, VARINT_MAX as nat);
}

} // verus!
