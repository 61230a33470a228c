//! The bytes of the arrays, section by section.

use vstd::prelude::*;
use vstd::utf8::{decode_utf8, encode_utf8, valid_utf8};
use crate::arrays::{new_owners, texts_of, Arrays, EventArrays};
use crate::binary::{
    byte_of, le_byte, le_bytes, le_number, number_of, pull_le, push_le, read_le, signed, to_signed,
};
use crate::case::{case_decoded, case_encoded, decode_case, encode_case};
use crate::errors::{at_end, DecodeError};
use crate::reader::ByteReader;
use crate::text::{first_at, lemma_first_at};
use crate::varint::{
    read_varint, unzigzag, unzigzag_of, varint_bytes, varint_in, write_varint, zigzag, zigzag_of,
};

verus! {

/// All parts, one after the other.
pub open spec fn joined(parts: Seq<Seq<u8>>) -> Seq<u8>
    decreases parts.len(),
{
    if parts.len() == 0 {
        Seq::empty()
    } else {
        joined(parts.drop_last()) + parts.last()
    }
}

/// The bytes of the difference between two numbers: a zero marks one that is not positive.
pub open spec fn id_bytes(delta: i64) -> Seq<u8> {
    if delta <= 0 {
        seq![0u8] + varint_bytes((-delta) as u64)
    } else {
        varint_bytes(delta as u64)
    }
}

/// The type of an event and the low four bits of its time.
pub open spec fn packed(event_type: u8, ts_delta: i64) -> u8 {
    (event_type * 16 + zigzag_of(ts_delta) % 16) as u8
}

/// The other bits of the time of an event.
pub open spec fn high_bits(ts_delta: i64) -> u64 {
    zigzag_of(ts_delta) / 16
}

/// The byte number `k` of each number.
pub open spec fn row(numbers: Seq<u32>, k: int) -> Seq<u8> {
    Seq::new(numbers.len(), |i: int| le_byte(numbers[i], k))
}

/// The bytes of some numbers: the low bytes of all of them first.
pub open spec fn transposed(numbers: Seq<u32>) -> Seq<u8> {
    row(numbers, 0) + row(numbers, 1) + row(numbers, 2) + row(numbers, 3)
}

/// The bytes of a text, with a zero behind them.
pub open spec fn text_bytes(text: Seq<char>) -> Seq<u8> {
    encode_utf8(case_encoded(text)).push(0)
}

/// The section of the numbers of events.
pub open spec fn id_section(a: Arrays) -> Seq<u8> {
    joined(Seq::new(a.id_deltas.len(), |i: int| id_bytes(a.id_deltas[i])))
}

/// The section of the types, with the low bits of the times.
pub open spec fn packed_section(a: Arrays) -> Seq<u8> {
    Seq::new(a.types.len(), |i: int| packed(a.types[i], a.ts_deltas[i]))
}

/// The section of the other bits of the times.
pub open spec fn high_section(a: Arrays) -> Seq<u8> {
    joined(Seq::new(a.ts_deltas.len(), |i: int| varint_bytes(high_bits(a.ts_deltas[i]))))
}

/// The section of the references.
pub open spec fn backref_section(a: Arrays) -> Seq<u8> {
    joined(Seq::new(a.backrefs.len(), |i: int| varint_bytes(a.backrefs[i])))
}

/// A section of texts.
pub open spec fn text_section(texts: Seq<Seq<char>>) -> Seq<u8> {
    joined(Seq::new(texts.len(), |i: int| text_bytes(texts[i])))
}

/// The counts of events and of new repositories.
pub open spec fn header(a: Arrays) -> Seq<u8> {
    le_bytes((a.id_deltas.len() % 0x1_0000_0000) as u32) + le_bytes(
        (a.repo_ids.len() % 0x1_0000_0000) as u32,
    )
}

/// All sections.
pub open spec fn payload(a: Arrays) -> Seq<u8> {
    header(a) + id_section(a) + packed_section(a) + high_section(a) + backref_section(a)
        + transposed(a.repo_ids) + text_section(a.owners) + text_section(a.names)
}

/// A value at the beginning of some bytes, and what follows it.
pub type Parsed<T> = Result<(T, Seq<u8>), DecodeError>;

/// `n` values at the beginning of `input`, each read by `read`, and what follows them.
pub open spec fn read_all<T>(
    read: spec_fn(Seq<u8>) -> Parsed<T>,
    input: Seq<u8>,
    n: int,
) -> Parsed<Seq<T>>
    decreases n,
{
    if n <= 0 {
        Ok((Seq::empty(), input))
    } else {
        match read_all(read, input, n - 1) {
            Err(e) => Err(e),
            Ok((values, rest)) => match read(rest) {
                Err(e) => Err(e),
                Ok((value, rest)) => Ok((values.push(value), rest)),
            },
        }
    }
}

/// A number of variable length.
pub open spec fn varint_at(input: Seq<u8>) -> Parsed<u64> {
    match varint_in(input) {
        Some((value, rest)) => Ok((value, rest)),
        None => Err(DecodeError::UnexpectedEof),
    }
}

/// The difference between two numbers. The value after a zero is negated, in 64 bits.
pub open spec fn id_at(input: Seq<u8>) -> Parsed<i64> {
    match varint_at(input) {
        Err(e) => Err(e),
        Ok((0, rest)) => match varint_at(rest) {
            Err(e) => Err(e),
            Ok((value, rest)) => Ok((negated(value), rest)),
        },
        Ok((value, rest)) => Ok((signed(value), rest)),
    }
}

/// The negative of the signed number with the same 64 bits, in 64 bits.
pub open spec fn negated(x: u64) -> i64 {
    if x <= 0x8000_0000_0000_0000 {
        (-x) as i64
    } else {
        (0x1_0000_0000_0000_0000 - x) as i64
    }
}

/// A text with a zero behind it.
pub open spec fn text_at(input: Seq<u8>) -> Parsed<Seq<char>> {
    let end = first_at(input, 0u8);
    if end >= input.len() {
        Err(DecodeError::UnexpectedEof)
    } else if !valid_utf8(input.take(end)) {
        Err(DecodeError::InvalidUtf8 { left: input.len() as usize })
    } else {
        Ok((case_decoded(decode_utf8(input.take(end)), false), input.skip(end + 1)))
    }
}

/// The type of an event, and its time with the bits `high` above the low four.
pub open spec fn unpacked(byte: u8, high: u64) -> (u8, i64) {
    (
        byte / 16,
        unzigzag_of(((high * 16) % 0x1_0000_0000_0000_0000 + byte % 16) as u64),
    )
}

/// The reader of differences between two numbers.
pub open spec fn id_reader() -> spec_fn(Seq<u8>) -> Parsed<i64> {
    |input: Seq<u8>| id_at(input)
}

/// The reader of numbers of variable length.
pub open spec fn varint_reader() -> spec_fn(Seq<u8>) -> Parsed<u64> {
    |input: Seq<u8>| varint_at(input)
}

/// The reader of texts.
pub open spec fn text_reader() -> spec_fn(Seq<u8>) -> Parsed<Seq<char>> {
    |input: Seq<u8>| text_at(input)
}

/// The values of `n` events: the differences of their numbers and times, their types and their
/// references.
#[verifier::opaque]
pub open spec fn event_values_at(input: Seq<u8>, n: int) -> Parsed<
    (Seq<i64>, Seq<i64>, Seq<u8>, Seq<u64>),
> {
    match read_all(id_reader(), input, n) {
        Err(e) => Err(e),
        Ok((ids, rest)) => if rest.len() < n {
            Err(DecodeError::UnexpectedEof)
        } else {
            let bytes = rest.take(n);
            match read_all(varint_reader(), rest.skip(n), n) {
                Err(e) => Err(e),
                Ok((highs, rest)) => match read_all(varint_reader(), rest, n) {
                    Err(e) => Err(e),
                    Ok((backrefs, rest)) => Ok(
                        (
                            (
                                ids,
                                Seq::new(n as nat, |i: int| unpacked(bytes[i], highs[i]).1),
                                Seq::new(n as nat, |i: int| unpacked(bytes[i], highs[i]).0),
                                backrefs,
                            ),
                            rest,
                        ),
                    ),
                },
            }
        },
    }
}

/// `n` numbers whose bytes stand row by row.
pub open spec fn transposed_at(input: Seq<u8>, n: int) -> Parsed<Seq<u32>> {
    if input.len() < 4 * n {
        Err(DecodeError::UnexpectedEof)
    } else {
        Ok(
            (
                Seq::new(
                    n as nat,
                    |i: int|
                        le_number(
                            input[i],
                            input[n + i],
                            input[2 * n + i],
                            input[3 * n + i],
                        ) as u32,
                ),
                input.skip(4 * n),
            ),
        )
    }
}

/// The numbers of `n` repositories, the names of `m` owners and those of the repositories.
#[verifier::opaque]
pub open spec fn repo_values_at(input: Seq<u8>, n: int, m: int) -> Parsed<
    (Seq<u32>, Seq<Seq<char>>, Seq<Seq<char>>),
> {
    match transposed_at(input, n) {
        Err(e) => Err(e),
        Ok((ids, rest)) => match read_all(text_reader(), rest, m) {
            Err(e) => Err(e),
            Ok((owners, rest)) => match read_all(text_reader(), rest, n) {
                Err(e) => Err(e),
                Ok((names, rest)) => Ok(((ids, owners, names), rest)),
            },
        },
    }
}

/// The arrays that `input` holds. What stands behind them is not read.
pub open spec fn arrays_in(input: Seq<u8>) -> Result<Arrays, DecodeError> {
    match read_le(input) {
        None => Err(DecodeError::UnexpectedEof),
        Some((n, rest)) => match read_le(rest) {
            None => Err(DecodeError::UnexpectedEof),
            Some((r, rest)) => match event_values_at(rest, n as int) {
                Err(e) => Err(e),
                Ok(((id_deltas, ts_deltas, types, backrefs), rest)) => match repo_values_at(
                    rest,
                    r as int,
                    new_owners(backrefs, n as int),
                ) {
                    Err(e) => Err(e),
                    Ok(((repo_ids, owners, names), _)) => Ok(
                        Arrays { id_deltas, ts_deltas, types, backrefs, repo_ids, owners, names },
                    ),
                },
            },
        },
    }
}

/// The parts up to one of them are those before it, and that one.
proof fn lemma_joined_step(parts: Seq<Seq<u8>>, n: int)
    requires
        0 <= n < parts.len(),
    ensures
        joined(parts.take(n + 1)) == joined(parts.take(n)) + parts[n],
{
    assert(parts.take(n + 1).drop_last() =~= parts.take(n));
}

/// Writes the differences of numbers.
fn write_ids(out: &mut Vec<u8>, deltas: &Vec<i64>)
    ensures
        final(out)@ == old(out)@ + joined(Seq::new(deltas@.len(), |i: int| id_bytes(deltas@[i]))),
{
    let ghost start = out@;
    let ghost parts = Seq::new(deltas@.len(), |i: int| id_bytes(deltas@[i]));
    assert(out@ =~= start + joined(parts.take(0)));
    let mut i: usize = 0;
    while i < deltas.len()
        invariant
            i <= deltas.len(),
            parts == Seq::new(deltas@.len(), |i: int| id_bytes(deltas@[i])),
            out@ == start + joined(parts.take(i as int)),
        decreases deltas.len() - i,
    {
        let ghost before = out@;
        let delta: i64 = deltas[i];
        if delta <= 0 {
            out.push(0);
            // The least number has no positive counterpart of its type.
            let size: u64 = (-(delta as i128)) as u64;
            write_varint(out, size);
            assert(out@ =~= before + id_bytes(delta));
        } else {
            write_varint(out, delta as u64);
        }
        proof {
            lemma_joined_step(parts, i as int);
            assert(start + joined(parts.take(i as int)) + parts[i as int] =~= start + (joined(
                parts.take(i as int),
            ) + parts[i as int]));
        }
        i = i + 1;
    }
    assert(parts.take(i as int) =~= parts);
}

/// Writes numbers of variable length.
fn write_varints(out: &mut Vec<u8>, values: &Vec<u64>)
    ensures
        final(out)@ == old(out)@ + joined(
            Seq::new(values@.len(), |i: int| varint_bytes(values@[i])),
        ),
{
    let ghost start = out@;
    let ghost parts = Seq::new(values@.len(), |i: int| varint_bytes(values@[i]));
    assert(out@ =~= start + joined(parts.take(0)));
    let mut i: usize = 0;
    while i < values.len()
        invariant
            i <= values.len(),
            parts == Seq::new(values@.len(), |i: int| varint_bytes(values@[i])),
            out@ == start + joined(parts.take(i as int)),
        decreases values.len() - i,
    {
        write_varint(out, values[i]);
        proof {
            lemma_joined_step(parts, i as int);
            assert(start + joined(parts.take(i as int)) + parts[i as int] =~= start + (joined(
                parts.take(i as int),
            ) + parts[i as int]));
        }
        i = i + 1;
    }
    assert(parts.take(i as int) =~= parts);
}

/// Writes texts, each with a zero behind it.
fn write_texts(out: &mut Vec<u8>, texts: &Vec<String>)
    ensures
        final(out)@ == old(out)@ + text_section(texts_of(texts@)),
{
    let ghost start = out@;
    let ghost views = texts_of(texts@);
    let ghost parts = Seq::new(views.len(), |i: int| text_bytes(views[i]));
    assert(out@ =~= start + joined(parts.take(0)));
    let mut i: usize = 0;
    while i < texts.len()
        invariant
            i <= texts.len(),
            views == texts_of(texts@),
            parts == Seq::new(views.len(), |i: int| text_bytes(views[i])),
            out@ == start + joined(parts.take(i as int)),
        decreases texts.len() - i,
    {
        let ghost before = out@;
        let encoded: String = encode_case(texts[i].as_str());
        out.extend_from_slice(encoded.as_str().as_bytes());
        out.push(0);
        proof {
            assert(out@ =~= before + parts[i as int]);
            lemma_joined_step(parts, i as int);
            assert(start + joined(parts.take(i as int)) + parts[i as int] =~= start + (joined(
                parts.take(i as int),
            ) + parts[i as int]));
        }
        i = i + 1;
    }
    assert(parts.take(i as int) =~= parts);
}

/// Writes one byte of each number.
fn write_row(out: &mut Vec<u8>, numbers: &Vec<u32>, k: u32)
    requires
        k < 4,
    ensures
        final(out)@ == old(out)@ + row(numbers@, k as int),
{
    let ghost start = out@;
    let mut i: usize = 0;
    assert(out@ =~= start + row(numbers@, k as int).take(0));
    while i < numbers.len()
        invariant
            k < 4,
            i <= numbers.len(),
            out@ == start + row(numbers@, k as int).take(i as int),
        decreases numbers.len() - i,
    {
        out.push(byte_of(numbers[i], k));
        i = i + 1;
        assert(out@ =~= start + row(numbers@, k as int).take(i as int));
    }
    assert(row(numbers@, k as int).take(i as int) =~= row(numbers@, k as int));
}

/// Writes the types and the times.
fn write_times(out: &mut Vec<u8>, types: &Vec<u8>, ts_deltas: &Vec<i64>)
    requires
        types.len() == ts_deltas.len(),
        forall|i: int| 0 <= i < types.len() ==> #[trigger] types@[i] < 16,
    ensures
        final(out)@ == old(out)@ + Seq::new(
            types@.len(),
            |i: int| packed(types@[i], ts_deltas@[i]),
        ) + joined(Seq::new(ts_deltas@.len(), |i: int| varint_bytes(high_bits(ts_deltas@[i])))),
{
    let ghost start = out@;
    let ghost bytes = Seq::new(types@.len(), |i: int| packed(types@[i], ts_deltas@[i]));
    let mut highs: Vec<u64> = Vec::new();
    let mut i: usize = 0;
    assert(out@ =~= start + bytes.take(0));
    while i < types.len()
        invariant
            i <= types.len(),
            types.len() == ts_deltas.len(),
            forall|i: int| 0 <= i < types.len() ==> #[trigger] types@[i] < 16,
            bytes == Seq::new(types@.len(), |i: int| packed(types@[i], ts_deltas@[i])),
            out@ == start + bytes.take(i as int),
            highs.len() == i,
            forall|k: int| 0 <= k < i ==> highs@[k] == high_bits(#[trigger] ts_deltas@[k]),
        decreases types.len() - i,
    {
        let zg: u64 = zigzag(ts_deltas[i]);
        let ty: u8 = types[i];
        // The type in the upper four bits, the lower four bits of the time below.
        out.push(ty * 16 + (zg % 16) as u8);
        highs.push(zg / 16);
        i = i + 1;
        assert(out@ =~= start + bytes.take(i as int));
    }
    assert(bytes.take(i as int) =~= bytes);
    write_varints(out, &highs);
    assert(Seq::new(highs@.len(), |i: int| varint_bytes(highs@[i])) =~= Seq::new(
        ts_deltas@.len(),
        |i: int| varint_bytes(high_bits(ts_deltas@[i])),
    ));
}

/// Writes all sections.
pub fn write_payload(arrays: &EventArrays) -> (r: Vec<u8>)
    requires
        arrays@.wf(),
    ensures
        r@ == payload(arrays@),
{
    let mut out: Vec<u8> = Vec::new();
    push_le(&mut out, (arrays.id_deltas.len() as u64 % 0x1_0000_0000) as u32);
    push_le(&mut out, (arrays.repo_ids.len() as u64 % 0x1_0000_0000) as u32);
    assert(out@ =~= header(arrays@));
    write_ids(&mut out, &arrays.id_deltas);
    write_times(&mut out, &arrays.types, &arrays.ts_deltas);
    write_varints(&mut out, &arrays.backrefs);
    let ghost events = out@;
    write_row(&mut out, &arrays.repo_ids, 0);
    write_row(&mut out, &arrays.repo_ids, 1);
    write_row(&mut out, &arrays.repo_ids, 2);
    write_row(&mut out, &arrays.repo_ids, 3);
    assert(out@ =~= events + transposed(arrays@.repo_ids));
    write_texts(&mut out, &arrays.owners);
    write_texts(&mut out, &arrays.names);
    out
}

/// What stops the reading of values is the outcome.
proof fn lemma_read_stops<T>(
    read: spec_fn(Seq<u8>) -> Parsed<T>,
    input: Seq<u8>,
    n: int,
    m: int,
)
    requires
        0 <= n <= m,
        read_all(read, input, n) is Err,
    ensures
        read_all(read, input, m) == read_all(read, input, n),
    decreases m - n,
{
    if n < m {
        lemma_read_stops(read, input, n, m - 1);
    }
}

/// Reads the difference between two numbers.
fn read_id(reader: &mut ByteReader) -> (r: Result<i64, DecodeError>)
    ensures
        match r {
            Ok(delta) => id_at(old(reader)@) == Ok::<_, DecodeError>((delta, final(reader)@)),
            Err(e) => id_at(old(reader)@) == Err::<(i64, Seq<u8>), _>(e),
        },
{
    let first: u64 = match read_varint(reader) {
        Ok(value) => value,
        Err(e) => {
            return Err(at_end(e));
        },
    };
    if first == 0 {
        let size: u64 = match read_varint(reader) {
            Ok(value) => value,
            Err(e) => {
                return Err(at_end(e));
            },
        };
        if size <= 0x8000_0000_0000_0000 {
            Ok((-(size as i128)) as i64)
        } else {
            Ok((0x1_0000_0000_0000_0000 - size as i128) as i64)
        }
    } else {
        Ok(to_signed(first))
    }
}

/// Reads the differences between numbers.
fn read_ids(reader: &mut ByteReader, n: u32) -> (r: Result<Vec<i64>, DecodeError>)
    ensures
        match r {
            Ok(values) => read_all(id_reader(), old(reader)@, n as int) == Ok::<_, DecodeError>(
                (values@, final(reader)@),
            ),
            Err(e) => read_all(id_reader(), old(reader)@, n as int) == Err::<
                (Seq<i64>, Seq<u8>),
                _,
            >(e),
        },
{
    let ghost input = reader@;
    let mut values: Vec<i64> = Vec::new();
    let mut i: u32 = 0;
    while i < n
        invariant
            i <= n,
            input == old(reader)@,
            read_all(id_reader(), input, i as int) == Ok::<_, DecodeError>((values@, reader@)),
        decreases n - i,
    {
        let ghost rest = reader@;
        assert(id_reader()(rest) == id_at(rest));
        match read_id(reader) {
            Ok(value) => {
                values.push(value);
            },
            Err(e) => {
                proof {
                    lemma_read_stops(id_reader(), input, i + 1, n as int);
                }
                return Err(e);
            },
        }
        i = i + 1;
    }
    Ok(values)
}

/// Reads numbers of variable length.
fn read_varints(reader: &mut ByteReader, n: u32) -> (r: Result<Vec<u64>, DecodeError>)
    ensures
        match r {
            Ok(values) => read_all(varint_reader(), old(reader)@, n as int) == Ok::<_, DecodeError>(
                (values@, final(reader)@),
            ),
            Err(e) => read_all(varint_reader(), old(reader)@, n as int) == Err::<
                (Seq<u64>, Seq<u8>),
                _,
            >(e),
        },
{
    let ghost input = reader@;
    let mut values: Vec<u64> = Vec::new();
    let mut i: u32 = 0;
    while i < n
        invariant
            i <= n,
            input == old(reader)@,
            read_all(varint_reader(), input, i as int) == Ok::<_, DecodeError>((values@, reader@)),
        decreases n - i,
    {
        let ghost rest = reader@;
        assert(varint_reader()(rest) == varint_at(rest));
        match read_varint(reader) {
            Ok(value) => {
                values.push(value);
            },
            Err(e) => {
                proof {
                    lemma_read_stops(varint_reader(), input, i + 1, n as int);
                }
                return Err(at_end(e));
            },
        }
        i = i + 1;
    }
    Ok(values)
}

/// Reads bytes.
fn read_bytes(reader: &mut ByteReader, n: u32) -> (r: Result<Vec<u8>, DecodeError>)
    ensures
        match r {
            Ok(bytes) => {
                &&& old(reader)@.len() >= n
                &&& bytes@ == old(reader)@.take(n as int)
                &&& final(reader)@ == old(reader)@.skip(n as int)
            },
            Err(e) => old(reader)@.len() < n && e == DecodeError::UnexpectedEof,
        },
{
    let ghost input = reader@;
    let mut bytes: Vec<u8> = Vec::new();
    let mut i: u32 = 0;
    assert(input.skip(0) =~= input);
    assert(input.take(0) =~= Seq::empty());
    while i < n
        invariant
            i <= n,
            input == old(reader)@,
            i <= input.len(),
            bytes@ == input.take(i as int),
            reader@ == input.skip(i as int),
        decreases n - i,
    {
        match reader.read_byte() {
            Ok(byte) => {
                bytes.push(byte);
            },
            Err(e) => {
                return Err(at_end(e));
            },
        }
        i = i + 1;
        assert(bytes@ =~= input.take(i as int));
        assert(reader@ =~= input.skip(i as int));
    }
    Ok(bytes)
}

/// Reads a text with a zero behind it.
fn read_text(reader: &mut ByteReader) -> (r: Result<String, DecodeError>)
    ensures
        match r {
            Ok(text) => text_at(old(reader)@) == Ok::<_, DecodeError>((text@, final(reader)@)),
            Err(e) => text_at(old(reader)@) == Err::<(Seq<char>, Seq<u8>), _>(e),
        },
{
    let ghost input = reader@;
    let ghost end = first_at(input, 0u8);
    proof {
        lemma_first_at(input, 0u8);
        assert(input.skip(0) =~= input);
        assert(input.take(0) =~= Seq::empty());
    }
    let left: usize = reader.left();
    let mut bytes: Vec<u8> = Vec::new();
    let mut found: bool = false;
    while !found
        invariant
            input == old(reader)@,
            end == first_at(input, 0u8),
            0 <= end <= input.len(),
            end < input.len() ==> input[end] == 0,
            forall|i: int| 0 <= i < end ==> input[i] != 0,
            bytes.len() <= end,
            bytes@ == input.take(bytes@.len() as int),
            !found ==> reader@ == input.skip(bytes@.len() as int),
            found ==> bytes@.len() == end && end < input.len() && reader@ == input.skip(end + 1),
        decreases
                (if found {
                    0
                } else {
                    1 + input.len() - bytes.len()
                }),
    {
        match reader.read_byte() {
            Ok(0) => {
                assert(reader@ =~= input.skip(bytes.len() + 1));
                found = true;
            },
            Ok(byte) => {
                assert(reader@ =~= input.skip(bytes.len() + 1));
                bytes.push(byte);
                assert(bytes@ =~= input.take(bytes@.len() as int));
            },
            Err(e) => {
                return Err(at_end(e));
            },
        }
    }
    match String::from_utf8(bytes) {
        Ok(text) => Ok(decode_case(text.as_str())),
        Err(_) => Err(DecodeError::InvalidUtf8 { left }),
    }
}

/// Reads texts.
fn read_texts(reader: &mut ByteReader, n: usize) -> (r: Result<Vec<String>, DecodeError>)
    ensures
        match r {
            Ok(texts) => read_all(text_reader(), old(reader)@, n as int) == Ok::<_, DecodeError>(
                (texts_of(texts@), final(reader)@),
            ),
            Err(e) => read_all(text_reader(), old(reader)@, n as int) == Err::<
                (Seq<Seq<char>>, Seq<u8>),
                _,
            >(e),
        },
{
    let ghost input = reader@;
    let mut texts: Vec<String> = Vec::new();
    let mut i: usize = 0;
    assert(texts_of(texts@) =~= Seq::empty());
    while i < n
        invariant
            i <= n,
            input == old(reader)@,
            read_all(text_reader(), input, i as int) == Ok::<_, DecodeError>(
                (texts_of(texts@), reader@),
            ),
        decreases n - i,
    {
        let ghost rest = reader@;
        let ghost before = texts@;
        assert(text_reader()(rest) == text_at(rest));
        match read_text(reader) {
            Ok(text) => {
                texts.push(text);
                assert(texts_of(texts@) =~= texts_of(before).push(text@));
            },
            Err(e) => {
                proof {
                    lemma_read_stops(text_reader(), input, i + 1, n as int);
                }
                return Err(e);
            },
        }
        i = i + 1;
    }
    Ok(texts)
}

/// Reads numbers whose bytes stand row by row.
fn read_transposed(reader: &mut ByteReader, n: u32) -> (r: Result<Vec<u32>, DecodeError>)
    ensures
        match r {
            Ok(numbers) => transposed_at(old(reader)@, n as int) == Ok::<_, DecodeError>(
                (numbers@, final(reader)@),
            ),
            Err(e) => transposed_at(old(reader)@, n as int) == Err::<(Seq<u32>, Seq<u8>), _>(e),
        },
{
    let ghost input = reader@;
    let row0: Vec<u8> = read_bytes(reader, n)?;
    let row1: Vec<u8> = read_bytes(reader, n)?;
    let row2: Vec<u8> = read_bytes(reader, n)?;
    let row3: Vec<u8> = read_bytes(reader, n)?;
    assert(reader@ =~= input.skip(4 * n));
    let mut numbers: Vec<u32> = Vec::new();
    let mut i: usize = 0;
    while i < row0.len()
        invariant
            i <= n,
            row0.len() == n,
            row1.len() == n,
            row2.len() == n,
            row3.len() == n,
            input.len() >= 4 * n,
            forall|k: int| 0 <= k < n ==> row0@[k] == #[trigger] input[k],
            forall|k: int| 0 <= k < n ==> #[trigger] row1@[k] == input[n + k],
            forall|k: int| 0 <= k < n ==> #[trigger] row2@[k] == input[2 * n + k],
            forall|k: int| 0 <= k < n ==> #[trigger] row3@[k] == input[3 * n + k],
            numbers.len() == i,
            forall|k: int|
                0 <= k < i ==> #[trigger] numbers@[k] == le_number(
                    input[k],
                    input[n + k],
                    input[2 * n + k],
                    input[3 * n + k],
                ),
        decreases n - i,
    {
        numbers.push(number_of(row0[i], row1[i], row2[i], row3[i]));
        i = i + 1;
    }
    assert(numbers@ =~= transposed_at(input, n as int)->Ok_0.0);
    Ok(numbers)
}

/// Puts types and times together from their bits.
fn unpack(bytes: &Vec<u8>, highs: &Vec<u64>) -> (r: (Vec<i64>, Vec<u8>))
    requires
        bytes.len() == highs.len(),
    ensures
        r.0@ == Seq::new(bytes@.len(), |i: int| unpacked(bytes@[i], highs@[i]).1),
        r.1@ == Seq::new(bytes@.len(), |i: int| unpacked(bytes@[i], highs@[i]).0),
{
    let mut ts_deltas: Vec<i64> = Vec::new();
    let mut types: Vec<u8> = Vec::new();
    let mut i: usize = 0;
    while i < bytes.len()
        invariant
            bytes.len() == highs.len(),
            i <= bytes.len(),
            ts_deltas.len() == i,
            types.len() == i,
            forall|k: int|
                0 <= k < i ==> #[trigger] ts_deltas@[k] == unpacked(bytes@[k], highs@[k]).1,
            forall|k: int| 0 <= k < i ==> #[trigger] types@[k] == unpacked(bytes@[k], highs@[k]).0,
        decreases bytes.len() - i,
    {
        let low: u64 = (bytes[i] % 16) as u64;
        let high: u64 = highs[i];
        proof {
            lemma_append_nibble(high, low);
        }
        types.push(bytes[i] / 16);
        ts_deltas.push(unzigzag((high << 4) | low));
        i = i + 1;
    }
    assert(ts_deltas@ =~= Seq::new(bytes@.len(), |i: int| unpacked(bytes@[i], highs@[i]).1));
    assert(types@ =~= Seq::new(bytes@.len(), |i: int| unpacked(bytes@[i], highs@[i]).0));
    (ts_deltas, types)
}

proof fn lemma_append_nibble(high: u64, low: u64)
    requires
        low < 16,
    ensures
        (high << 4) | low == (high * 16) % 0x1_0000_0000_0000_0000 + low,
{
    assert((high << 4) | low == (high * 16) % 0x1_0000_0000_0000_0000 + low) by (bit_vector)
        requires
            low < 16,
    ;
}

/// Counts the references to new owners.
fn count_new_owners(backrefs: &Vec<u64>) -> (r: usize)
    ensures
        r == new_owners(backrefs@, backrefs@.len() as int),
{
    let mut count: usize = 0;
    let mut i: usize = 0;
    while i < backrefs.len()
        invariant
            i <= backrefs.len(),
            count <= i,
            count == new_owners(backrefs@, i as int),
        decreases backrefs.len() - i,
    {
        if backrefs[i] == 0 {
            count = count + 1;
        }
        i = i + 1;
    }
    count
}

/// The arrays that were read are well formed.
proof fn lemma_arrays_wf(input: Seq<u8>)
    ensures
        arrays_in(input) is Ok ==> arrays_in(input)->Ok_0.wf(),
{
    reveal(event_values_at);
    reveal(repo_values_at);
    if let Some((n, rest)) = read_le(input) {
        if let Some((r, rest)) = read_le(rest) {
            lemma_read_len(id_reader(), rest, n as int);
            if let Ok((ids, rest)) = read_all(id_reader(), rest, n as int) {
                let bits = rest.skip(n as int);
                lemma_read_len(varint_reader(), bits, n as int);
                if let Ok((highs, rest)) = read_all(varint_reader(), bits, n as int) {
                    lemma_read_len(varint_reader(), rest, n as int);
                    if let Ok((backrefs, rest)) = read_all(varint_reader(), rest, n as int) {
                        let m = new_owners(backrefs, n as int);
                        if let Ok((_, rest)) = transposed_at(rest, r as int) {
                            if let Ok((_, rest)) = read_all(text_reader(), rest, m) {
                                lemma_read_len(text_reader(), rest, r as int);
                            }
                        }
                    }
                }
            }
        }
    }
}

/// As many values are read as were asked for.
proof fn lemma_read_len<T>(read: spec_fn(Seq<u8>) -> Parsed<T>, input: Seq<u8>, n: int)
    requires
        0 <= n,
    ensures
        match read_all(read, input, n) {
            Ok((values, _)) => values.len() == n,
            Err(_) => true,
        },
    decreases n,
{
    if n > 0 {
        lemma_read_len(read, input, n - 1);
    }
}

/// Reads all sections.
pub fn read_payload(data: &[u8]) -> (r: Result<EventArrays, DecodeError>)
    ensures
        match r {
            Ok(arrays) => arrays_in(data@) == Ok::<_, DecodeError>(arrays@) && arrays@.wf(),
            Err(e) => arrays_in(data@) == Err::<Arrays, _>(e),
        },
{
    reveal(event_values_at);
    reveal(repo_values_at);
    let mut reader: ByteReader = ByteReader::new(data);
    let num_events: u32 = match pull_le(&mut reader) {
        Ok(n) => n,
        Err(e) => {
            return Err(at_end(e));
        },
    };
    let num_new_repos: u32 = match pull_le(&mut reader) {
        Ok(n) => n,
        Err(e) => {
            return Err(at_end(e));
        },
    };
    let id_deltas: Vec<i64> = read_ids(&mut reader, num_events)?;
    let bytes: Vec<u8> = read_bytes(&mut reader, num_events)?;
    let ghost bits = reader@;
    let highs: Vec<u64> = read_varints(&mut reader, num_events)?;
    proof {
        lemma_read_len(varint_reader(), bits, num_events as int);
    }
    let (ts_deltas, types) = unpack(&bytes, &highs);
    let ghost refs = reader@;
    let backrefs: Vec<u64> = read_varints(&mut reader, num_events)?;
    proof {
        lemma_read_len(varint_reader(), refs, num_events as int);
        lemma_arrays_wf(data@);
    }
    let repo_ids: Vec<u32> = read_transposed(&mut reader, num_new_repos)?;
    let num_new_owners: usize = count_new_owners(&backrefs);
    let owners: Vec<String> = read_texts(&mut reader, num_new_owners)?;
    let names: Vec<String> = read_texts(&mut reader, num_new_repos as usize)?;
    let arrays: EventArrays = EventArrays {
        id_deltas,
        ts_deltas,
        types,
        backrefs,
        repo_ids,
        owners,
        names,
    };
    assert(arrays@ == arrays_in(data@)->Ok_0);
    Ok(arrays)
}

} // verus!
