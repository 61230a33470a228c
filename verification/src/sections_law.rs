//! What is written to the sections is read back.

use vstd::prelude::*;
use vstd::utf8::{
    encode_scalar, encode_utf8, encode_utf8_decode_utf8, encode_utf8_valid_utf8,
};
use crate::arrays::{new_owners, Arrays};
use crate::binary::{law_le_bytes, le_bytes, read_le};
use crate::case::{
    case_encoded, is_caseless, is_restorable, latch_restores, latches, law_case_roundtrip,
    lemma_upper_run, lowered, marked_run, shift_restores, shifted, upper_run,
};
use crate::errors::DecodeError;
use crate::sections::{
    arrays_in, backref_section, event_values_at, header, high_bits, high_section, id_at, id_bytes,
    id_reader, id_section, joined, packed, packed_section, payload, read_all, repo_values_at, row,
    text_at, text_bytes, text_reader, text_section, transposed, transposed_at, unpacked,
    varint_reader, Parsed,
};
use crate::text::{first_at, lemma_first_at};
use crate::unicode::{to_lower, to_upper};
use crate::varint::{
    law_varint_roundtrip, law_zigzag, varint_bytes, varint_in, zigzag_of,
};

verus! {

/// A text that can be stored: it comes back from its encoded form, and the character that ends a
/// text is not in it.
#[verifier::opaque]
pub open spec fn is_storable(text: Seq<char>) -> bool {
    is_restorable(text) && !text.contains('\0')
}

/// Values that were written one after the other are read back.
pub proof fn law_read_all<T>(
    read: spec_fn(Seq<u8>) -> Parsed<T>,
    values: Seq<T>,
    parts: Seq<Seq<u8>>,
    n: int,
    rest: Seq<u8>,
)
    requires
        0 <= n <= parts.len(),
        parts.len() == values.len(),
        forall|i: int, after: Seq<u8>|
            0 <= i < parts.len() ==> #[trigger] read(parts[i] + after) == Ok::<_, DecodeError>(
                (values[i], after),
            ),
    ensures
        read_all(read, joined(parts.take(n)) + rest, n) == Ok::<_, DecodeError>(
            (values.take(n), rest),
        ),
    decreases n,
{
    let input = joined(parts.take(n)) + rest;
    if n == 0 {
        assert(input =~= rest);
        assert(values.take(0) =~= Seq::empty());
    } else {
        assert(parts.take(n).drop_last() =~= parts.take(n - 1));
        let after = parts[n - 1] + rest;
        assert(input =~= joined(parts.take(n - 1)) + after);
        law_read_all(read, values, parts, n - 1, after);
        assert(read(parts[n - 1] + rest) == Ok::<_, DecodeError>((values[n - 1], rest)));
        assert(values.take(n - 1).push(values[n - 1]) =~= values.take(n));
    }
}

/// The difference between two numbers is read back.
pub proof fn law_id_roundtrip(delta: i64, rest: Seq<u8>)
    ensures
        id_at(id_bytes(delta) + rest) == Ok::<_, DecodeError>((delta, rest)),
{
    if delta <= 0 {
        let size = (-delta) as u64;
        let after = varint_bytes(size) + rest;
        assert(varint_bytes(0) =~= seq![0u8]);
        assert(id_bytes(delta) + rest =~= varint_bytes(0) + after);
        law_varint_roundtrip(0, after);
        law_varint_roundtrip(size, rest);
    } else {
        law_varint_roundtrip(delta as u64, rest);
    }
}

/// A type and a time are put together again.
pub proof fn law_packed_roundtrip(event_type: u8, ts_delta: i64)
    requires
        event_type < 16,
    ensures
        unpacked(packed(event_type, ts_delta), high_bits(ts_delta)) == (event_type, ts_delta),
{
    law_zigzag(ts_delta);
}

/// Numbers whose bytes stand row by row are read back.
pub proof fn law_transposed_roundtrip(numbers: Seq<u32>, rest: Seq<u8>)
    ensures
        transposed_at(transposed(numbers) + rest, numbers.len() as int) == Ok::<_, DecodeError>(
            (numbers, rest),
        ),
{
    let n = numbers.len() as int;
    let input = transposed(numbers) + rest;
    assert(input.skip(4 * n) =~= rest);
    let read = transposed_at(input, n)->Ok_0.0;
    assert forall|i: int| 0 <= i < n implies #[trigger] read[i] == numbers[i] by {
        assert(input[i] == row(numbers, 0)[i]);
        assert(input[n + i] == row(numbers, 1)[i]);
        assert(input[2 * n + i] == row(numbers, 2)[i]);
        assert(input[3 * n + i] == row(numbers, 3)[i]);
        law_le_bytes(numbers[i]);
    }
    assert(read =~= numbers);
}

/// Only the character zero has a byte zero.
proof fn lemma_scalar_bytes(character: char)
    requires
        character != '\0',
    ensures
        forall|i: int|
            0 <= i < encode_scalar(character as u32).len() ==> #[trigger] encode_scalar(
                character as u32,
            )[i] != 0,
{
    let c = character as u32;
    assert(c <= 0x7f ==> (c & 0x7f) as u8 != 0) by (bit_vector)
        requires
            0 < c,
    ;
    assert(forall|x: u8|
        #![trigger (0x80u8 | x)]
        #![trigger (0xc0u8 | x)]
        #![trigger (0xe0u8 | x)]
        #![trigger (0xf0u8 | x)]
        0x80u8 | x != 0 && 0xc0u8 | x != 0 && 0xe0u8 | x != 0 && 0xf0u8 | x != 0) by (bit_vector);
}

/// Text without the character zero has no byte zero.
proof fn lemma_no_zero_byte(text: Seq<char>)
    requires
        !text.contains('\0'),
    ensures
        forall|i: int| 0 <= i < encode_utf8(text).len() ==> #[trigger] encode_utf8(text)[i] != 0,
    decreases text.len(),
{
    if text.len() > 0 {
        let rest = text.drop_first();
        assert(text.contains(text[0]));
        assert(!rest.contains('\0')) by {
            if rest.contains('\0') {
                let k = choose|k: int| 0 <= k < rest.len() && rest[k] == '\0';
                assert(text[k + 1] == '\0');
            }
        }
        lemma_no_zero_byte(rest);
        lemma_scalar_bytes(text[0]);
        let first = encode_scalar(text[0] as u32);
        assert forall|i: int| 0 <= i < encode_utf8(text).len() implies #[trigger] encode_utf8(
            text,
        )[i] != 0 by {
            if i < first.len() {
                assert(encode_utf8(text)[i] == first[i]);
            } else {
                assert(encode_utf8(text)[i] == encode_utf8(rest)[i - first.len()]);
            }
        }
    }
}

/// The lower case of a character that can be restored is not the character zero.
proof fn lemma_no_zero_lower(c: char)
    requires
        c != '\0',
        shift_restores(c) || is_caseless(c),
    ensures
        !to_lower(c).contains('\0'),
{
    if to_lower(c).contains('\0') {
        assert(to_lower(c)[0] == '\0');
        if shift_restores(c) {
            assert(to_upper('\0')[0] == '\0');
            assert(seq![c][0] == c);
        } else {
            assert(seq![c][0] == c);
        }
    }
}

proof fn lemma_no_zero_join(a: Seq<char>, b: Seq<char>)
    requires
        !a.contains('\0'),
        !b.contains('\0'),
    ensures
        !(a + b).contains('\0'),
{
    if (a + b).contains('\0') {
        let k = choose|k: int| 0 <= k < (a + b).len() && (a + b)[k] == '\0';
        if k < a.len() {
            assert(a[k] == '\0');
        } else {
            assert(b[k - a.len()] == '\0');
        }
    }
}

proof fn lemma_no_zero_part(text: Seq<char>, from: int, to: int)
    requires
        !text.contains('\0'),
        0 <= from <= to <= text.len(),
    ensures
        !text.subrange(from, to).contains('\0'),
{
    let part = text.subrange(from, to);
    if part.contains('\0') {
        let k = choose|k: int| 0 <= k < part.len() && part[k] == '\0';
        assert(text[from + k] == '\0');
    }
}

proof fn lemma_no_zero_lowered(run: Seq<char>)
    requires
        !run.contains('\0'),
        latch_restores(run) || forall|i: int|
            0 <= i < run.len() ==> is_caseless(#[trigger] run[i]),
    ensures
        !lowered(run).contains('\0'),
    decreases run.len(),
{
    if run.len() > 0 {
        let left = run.skip(1);
        lemma_no_zero_part(run, 1, run.len() as int);
        assert(left =~= run.subrange(1, run.len() as int));
        assert(run.contains(run[0]));
        let all_caseless = forall|i: int| 0 <= i < run.len() ==> is_caseless(#[trigger] run[i]);
        if all_caseless {
            assert(is_caseless(run[0]));
            assert forall|i: int| 0 <= i < left.len() implies is_caseless(#[trigger] left[i]) by {
                assert(left[i] == run[i + 1]);
            }
        }
        lemma_no_zero_lower(run[0]);
        lemma_no_zero_lowered(left);
        lemma_no_zero_join(to_lower(run[0]), lowered(left));
    }
}

proof fn lemma_no_zero_shifted(run: Seq<char>)
    requires
        !run.contains('\0'),
        forall|i: int| 0 <= i < run.len() ==> shift_restores(#[trigger] run[i]),
    ensures
        !shifted(run).contains('\0'),
    decreases run.len(),
{
    if run.len() > 0 {
        let left = run.skip(1);
        lemma_no_zero_part(run, 1, run.len() as int);
        assert(left =~= run.subrange(1, run.len() as int));
        assert(run.contains(run[0]));
        assert forall|i: int| 0 <= i < left.len() implies shift_restores(#[trigger] left[i]) by {
            assert(left[i] == run[i + 1]);
        }
        assert(shift_restores(run[0]));
        lemma_no_zero_lower(run[0]);
        lemma_no_zero_shifted(left);
        assert(!seq!['^'].contains('\0'));
        lemma_no_zero_join(seq!['^'], to_lower(run[0]));
        lemma_no_zero_join(seq!['^'] + to_lower(run[0]), shifted(left));
    }
}

/// Case compression brings no character zero into a text.
proof fn lemma_no_zero_encoded(text: Seq<char>)
    requires
        is_storable(text),
    ensures
        !case_encoded(text).contains('\0'),
    decreases text.len(),
{
    reveal(is_storable);
    if text.len() == 0 {
    } else if crate::case::begins_upper(text) {
        lemma_upper_run(text);
        let n = upper_run(text);
        let run = text.take(n);
        let left = text.skip(n);
        lemma_no_zero_part(text, 0, n);
        lemma_no_zero_part(text, n, text.len() as int);
        assert(run =~= text.subrange(0, n));
        assert(left =~= text.subrange(n, text.len() as int));
        lemma_no_zero_encoded(left);
        if latches(text) {
            lemma_no_zero_lowered(run);
            assert(!seq!['$'].contains('\0'));
            lemma_no_zero_join(seq!['$'], lowered(run));
        } else {
            lemma_no_zero_shifted(run);
        }
        lemma_no_zero_join(marked_run(text), case_encoded(left));
    } else {
        let left = text.skip(1);
        lemma_no_zero_part(text, 1, text.len() as int);
        assert(left =~= text.subrange(1, text.len() as int));
        assert(text.contains(text[0]));
        lemma_no_zero_encoded(left);
        assert(!seq![text[0]].contains('\0'));
        lemma_no_zero_join(seq![text[0]], case_encoded(left));
    }
}

/// A text that can be stored is read back.
pub proof fn law_text_roundtrip(text: Seq<char>, rest: Seq<u8>)
    requires
        is_storable(text),
    ensures
        text_at(text_bytes(text) + rest) == Ok::<_, DecodeError>((text, rest)),
{
    reveal(is_storable);
    let encoded = case_encoded(text);
    let bytes = encode_utf8(encoded);
    let input = text_bytes(text) + rest;
    lemma_no_zero_encoded(text);
    lemma_no_zero_byte(encoded);
    lemma_first_at(input, 0u8);
    let end = first_at(input, 0u8);
    let n = bytes.len() as int;
    assert(input[n] == 0);
    assert forall|i: int| 0 <= i < n implies input[i] != 0 by {
        assert(input[i] == bytes[i]);
    }
    assert(end == n);
    assert(input.take(n) =~= bytes);
    assert(input.skip(n + 1) =~= rest);
    encode_utf8_valid_utf8(encoded);
    encode_utf8_decode_utf8(encoded);
    law_case_roundtrip(text);
}

/// Texts that can be stored are read back.
proof fn lemma_texts_roundtrip(texts: Seq<Seq<char>>, rest: Seq<u8>)
    requires
        forall|i: int| 0 <= i < texts.len() ==> is_storable(#[trigger] texts[i]),
    ensures
        read_all(text_reader(), text_section(texts) + rest, texts.len() as int) == Ok::<
            _,
            DecodeError,
        >((texts, rest)),
{
    let parts = Seq::new(texts.len(), |i: int| text_bytes(texts[i]));
    assert forall|i: int, after: Seq<u8>| 0 <= i < parts.len() implies #[trigger] text_reader()(
        parts[i] + after,
    ) == Ok::<_, DecodeError>((texts[i], after)) by {
        law_text_roundtrip(texts[i], after);
    }
    law_read_all(text_reader(), texts, parts, texts.len() as int, rest);
    assert(parts.take(texts.len() as int) =~= parts);
    assert(texts.take(texts.len() as int) =~= texts);
}

/// Numbers of variable length are read back.
proof fn lemma_varints_roundtrip(values: Seq<u64>, rest: Seq<u8>)
    ensures
        read_all(
            varint_reader(),
            joined(Seq::new(values.len(), |i: int| varint_bytes(values[i]))) + rest,
            values.len() as int,
        ) == Ok::<_, DecodeError>((values, rest)),
{
    let parts = Seq::new(values.len(), |i: int| varint_bytes(values[i]));
    assert forall|i: int, after: Seq<u8>| 0 <= i < parts.len() implies #[trigger] varint_reader()(
        parts[i] + after,
    ) == Ok::<_, DecodeError>((values[i], after)) by {
        law_varint_roundtrip(values[i], after);
    }
    law_read_all(varint_reader(), values, parts, values.len() as int, rest);
    assert(parts.take(values.len() as int) =~= parts);
    assert(values.take(values.len() as int) =~= values);
}

/// The differences between numbers are read back.
proof fn lemma_ids_roundtrip(a: Arrays, rest: Seq<u8>)
    ensures
        read_all(id_reader(), id_section(a) + rest, a.id_deltas.len() as int) == Ok::<
            _,
            DecodeError,
        >((a.id_deltas, rest)),
{
    let deltas = a.id_deltas;
    let parts = Seq::new(deltas.len(), |i: int| id_bytes(deltas[i]));
    assert forall|i: int, after: Seq<u8>| 0 <= i < parts.len() implies #[trigger] id_reader()(
        parts[i] + after,
    ) == Ok::<_, DecodeError>((deltas[i], after)) by {
        law_id_roundtrip(deltas[i], after);
    }
    law_read_all(id_reader(), deltas, parts, deltas.len() as int, rest);
    assert(parts.take(deltas.len() as int) =~= parts);
    assert(deltas.take(deltas.len() as int) =~= deltas);
}

/// The sections from that of the repositories' numbers on, and what stands behind them.
#[verifier::opaque]
spec fn repo_part(a: Arrays, tail: Seq<u8>) -> Seq<u8> {
    transposed(a.repo_ids) + (text_section(a.owners) + (text_section(a.names) + tail))
}

/// The sections from that of the events' numbers on, and what stands behind them.
#[verifier::opaque]
spec fn event_part(a: Arrays, tail: Seq<u8>) -> Seq<u8> {
    id_section(a) + (packed_section(a) + (high_section(a) + (backref_section(a) + repo_part(
        a,
        tail,
    ))))
}

/// The values of events are read back.
proof fn lemma_event_values_roundtrip(a: Arrays, tail: Seq<u8>)
    requires
        a.wf(),
    ensures
        event_values_at(event_part(a, tail), a.id_deltas.len() as int) == Ok::<_, DecodeError>(
            ((a.id_deltas, a.ts_deltas, a.types, a.backrefs), repo_part(a, tail)),
        ),
{
    reveal(event_values_at);
    reveal(event_part);
    let rest = repo_part(a, tail);
    let n = a.id_deltas.len() as int;
    let after_high = backref_section(a) + rest;
    let after_packed = high_section(a) + after_high;
    let after_ids = packed_section(a) + after_packed;
    lemma_ids_roundtrip(a, after_ids);
    assert(after_ids.take(n) =~= packed_section(a));
    assert(after_ids.skip(n) =~= after_packed);
    let highs = Seq::new(n as nat, |i: int| high_bits(a.ts_deltas[i]));
    lemma_varints_roundtrip(highs, after_high);
    assert(Seq::new(highs.len(), |i: int| varint_bytes(highs[i])) =~= Seq::new(
        a.ts_deltas.len(),
        |i: int| varint_bytes(high_bits(a.ts_deltas[i])),
    ));
    lemma_varints_roundtrip(a.backrefs, rest);
    let bytes = packed_section(a);
    assert forall|i: int| 0 <= i < n implies unpacked(
        #[trigger] bytes[i],
        #[trigger] highs[i],
    ) == (a.types[i], a.ts_deltas[i]) by {
        law_packed_roundtrip(a.types[i], a.ts_deltas[i]);
    }
    assert(Seq::new(n as nat, |i: int| unpacked(bytes[i], highs[i]).1) =~= a.ts_deltas);
    assert(Seq::new(n as nat, |i: int| unpacked(bytes[i], highs[i]).0) =~= a.types);
}

/// The values of repositories are read back.
proof fn lemma_repo_values_roundtrip(a: Arrays, tail: Seq<u8>)
    requires
        a.wf(),
        forall|i: int| 0 <= i < a.owners.len() ==> is_storable(#[trigger] a.owners[i]),
        forall|i: int| 0 <= i < a.names.len() ==> is_storable(#[trigger] a.names[i]),
    ensures
        repo_values_at(
            repo_part(a, tail),
            a.repo_ids.len() as int,
            a.owners.len() as int,
        ) == Ok::<_, DecodeError>(((a.repo_ids, a.owners, a.names), tail)),
{
    reveal(repo_values_at);
    reveal(repo_part);
    let named = text_section(a.names) + tail;
    law_transposed_roundtrip(a.repo_ids, text_section(a.owners) + named);
    lemma_texts_roundtrip(a.owners, named);
    lemma_texts_roundtrip(a.names, tail);
}

proof fn lemma_read_le(x: u32, rest: Seq<u8>)
    ensures
        read_le(le_bytes(x) + rest) == Some((x, rest)),
{
    law_le_bytes(x);
    let input = le_bytes(x) + rest;
    assert(input.skip(4) =~= rest);
}

/// It does not matter in which order sequences are joined.
proof fn lemma_regroup(
    h0: Seq<u8>,
    h1: Seq<u8>,
    s1: Seq<u8>,
    s2: Seq<u8>,
    s3: Seq<u8>,
    s4: Seq<u8>,
    s5: Seq<u8>,
    s6: Seq<u8>,
    s7: Seq<u8>,
)
    ensures
        (h0 + h1) + s1 + s2 + s3 + s4 + s5 + s6 + s7 == h0 + (h1 + (s1 + (s2 + (s3 + (s4 + (s5 + (s6
            + s7))))))),
{
    let s0 = h0 + h1;
    let t6 = s6 + s7;
    let t5 = s5 + t6;
    let t4 = s4 + t5;
    let t3 = s3 + t4;
    let t2 = s2 + t3;
    let t1 = s1 + t2;
    lemma_join(s0 + s1 + s2 + s3 + s4 + s5, s6, s7);
    lemma_join(s0 + s1 + s2 + s3 + s4, s5, t6);
    lemma_join(s0 + s1 + s2 + s3, s4, t5);
    lemma_join(s0 + s1 + s2, s3, t4);
    lemma_join(s0 + s1, s2, t3);
    lemma_join(s0, s1, t2);
    lemma_join(h0, h1, t1);
}

/// The input is the header, the sections behind it, and what stands behind them.
spec fn has_parts(input: Seq<u8>, a: Arrays, n: u32, r: u32, tail: Seq<u8>) -> bool {
    input == le_bytes(n) + (le_bytes(r) + event_part(a, tail))
}

/// The arrays are read back from the header and the sections behind it.
proof fn lemma_parts_roundtrip(a: Arrays, n: u32, r: u32, input: Seq<u8>, tail: Seq<u8>)
    requires
        a.wf(),
        n == a.id_deltas.len(),
        r == a.repo_ids.len(),
        a.owners.len() == new_owners(a.backrefs, a.backrefs.len() as int),
        forall|i: int| 0 <= i < a.owners.len() ==> is_storable(#[trigger] a.owners[i]),
        forall|i: int| 0 <= i < a.names.len() ==> is_storable(#[trigger] a.names[i]),
        has_parts(input, a, n, r, tail),
    ensures
        arrays_in(input) == Ok::<_, DecodeError>(a),
{
    let events = event_part(a, tail);
    let counted = le_bytes(r) + events;
    lemma_read_le(n, counted);
    lemma_read_le(r, events);
    lemma_event_values_roundtrip(a, tail);
    lemma_repo_values_roundtrip(a, tail);
}

/// The arrays are read back from their sections, where there are as many owners as references to
/// new ones, and all texts can be stored.
pub proof fn law_payload_roundtrip(a: Arrays)
    requires
        a.wf(),
        a.id_deltas.len() <= u32::MAX,
        a.repo_ids.len() <= u32::MAX,
        a.owners.len() == new_owners(a.backrefs, a.backrefs.len() as int),
        forall|i: int| 0 <= i < a.owners.len() ==> is_storable(#[trigger] a.owners[i]),
        forall|i: int| 0 <= i < a.names.len() ==> is_storable(#[trigger] a.names[i]),
    ensures
        arrays_in(payload(a)) == Ok::<_, DecodeError>(a),
{
    let nothing = Seq::<u8>::empty();
    law_payload_tail(a, nothing);
    assert(payload(a) + nothing =~= payload(a));
}

/// Bytes behind the sections are not read.
pub proof fn law_payload_tail(a: Arrays, tail: Seq<u8>)
    requires
        a.wf(),
        a.id_deltas.len() <= u32::MAX,
        a.repo_ids.len() <= u32::MAX,
        a.owners.len() == new_owners(a.backrefs, a.backrefs.len() as int),
        forall|i: int| 0 <= i < a.owners.len() ==> is_storable(#[trigger] a.owners[i]),
        forall|i: int| 0 <= i < a.names.len() ==> is_storable(#[trigger] a.names[i]),
    ensures
        arrays_in(payload(a) + tail) == Ok::<_, DecodeError>(a),
{
    let n = a.id_deltas.len() as u32;
    let r = a.repo_ids.len() as u32;
    lemma_payload_parts(a, n, r, tail);
    lemma_parts_roundtrip(a, n, r, payload(a) + tail, tail);
}

proof fn lemma_joined_size(parts: Seq<Seq<u8>>)
    requires
        forall|i: int| 0 <= i < parts.len() ==> (#[trigger] parts[i]).len() >= 1,
    ensures
        joined(parts).len() >= parts.len(),
    decreases parts.len(),
{
    if parts.len() > 0 {
        lemma_joined_size(parts.drop_last());
        assert(parts[parts.len() - 1].len() >= 1);
    }
}

/// Every event takes four bytes of the sections or more.
pub proof fn law_payload_size(a: Arrays)
    requires
        a.wf(),
    ensures
        4 * a.id_deltas.len() <= payload(a).len(),
{
    let ids = Seq::new(a.id_deltas.len(), |i: int| id_bytes(a.id_deltas[i]));
    assert forall|i: int| 0 <= i < ids.len() implies (#[trigger] ids[i]).len() >= 1 by {
        assert(ids[i] == id_bytes(a.id_deltas[i]));
    }
    lemma_joined_size(ids);
    lemma_joined_size(
        Seq::new(a.ts_deltas.len(), |i: int| varint_bytes(high_bits(a.ts_deltas[i]))),
    );
    lemma_joined_size(Seq::new(a.backrefs.len(), |i: int| varint_bytes(a.backrefs[i])));
}

#[verifier::spinoff_prover]
proof fn lemma_payload_parts(a: Arrays, n: u32, r: u32, tail: Seq<u8>)
    requires
        n == a.id_deltas.len(),
        r == a.repo_ids.len(),
    ensures
        has_parts(payload(a) + tail, a, n, r, tail),
{
    let (s1, s2, s3, s4) = (
        id_section(a),
        packed_section(a),
        high_section(a),
        backref_section(a),
    );
    let (s5, s6, s7) = (transposed(a.repo_ids), text_section(a.owners), text_section(a.names));
    let (h0, h1) = (le_bytes(n), le_bytes(r));
    let whole = payload(a);
    let events = event_part(a, tail);
    assert(whole == (h0 + h1) + s1 + s2 + s3 + s4 + s5 + s6 + s7);
    assert(events == s1 + (s2 + (s3 + (s4 + (s5 + (s6 + (s7 + tail))))))) by {
        reveal(event_part);
        reveal(repo_part);
    }
    lemma_regroup_tail(h0, h1, s1, s2, s3, s4, s5, s6, s7, tail);
}

proof fn lemma_regroup_tail(
    h0: Seq<u8>,
    h1: Seq<u8>,
    s1: Seq<u8>,
    s2: Seq<u8>,
    s3: Seq<u8>,
    s4: Seq<u8>,
    s5: Seq<u8>,
    s6: Seq<u8>,
    s7: Seq<u8>,
    tail: Seq<u8>,
)
    ensures
        (h0 + h1) + s1 + s2 + s3 + s4 + s5 + s6 + s7 + tail == h0 + (h1 + (s1 + (s2 + (s3 + (s4 + (
        s5 + (s6 + (s7 + tail)))))))),
{
    lemma_join((h0 + h1) + s1 + s2 + s3 + s4 + s5 + s6, s7, tail);
    lemma_regroup(h0, h1, s1, s2, s3, s4, s5, s6, s7 + tail);
}

proof fn lemma_join(a: Seq<u8>, b: Seq<u8>, c: Seq<u8>)
    ensures
        a + b + c == a + (b + c),
{
    assert(a + b + c =~= a + (b + c));
}

/// The byte of an event has its type in the upper half and the low four bits of its time in the
/// lower half. The bits above them are the rest of its time.
pub proof fn law_packed_halves(event_type: u8, ts_delta: i64)
    requires
        event_type < 16,
    ensures
        packed(event_type, ts_delta) / 16 == event_type,
        packed(event_type, ts_delta) % 16 + 16 * high_bits(ts_delta) == zigzag_of(ts_delta),
{
}

/// The sections begin with the number of events and the number of new repositories, low byte first.
pub proof fn law_payload_counts(a: Arrays)
    requires
        a.id_deltas.len() <= u32::MAX,
        a.repo_ids.len() <= u32::MAX,
    ensures
        ({
            let p = payload(a);
            &&& p.len() >= 8
            &&& p[0] + p[1] * 0x100 + p[2] * 0x1_0000 + p[3] * 0x100_0000 == a.id_deltas.len()
            &&& p[4] + p[5] * 0x100 + p[6] * 0x1_0000 + p[7] * 0x100_0000 == a.repo_ids.len()
        }),
{
    let n = a.id_deltas.len() as u32;
    let r = a.repo_ids.len() as u32;
    law_le_bytes(n);
    law_le_bytes(r);
    let nothing = Seq::<u8>::empty();
    lemma_payload_parts(a, n, r, nothing);
    assert(payload(a) + nothing =~= payload(a));
    lemma_pick(le_bytes(n), le_bytes(r), event_part(a, nothing));
}

proof fn lemma_pick(x: Seq<u8>, y: Seq<u8>, rest: Seq<u8>)
    requires
        x.len() == 4,
        y.len() == 4,
    ensures
        ({
            let p = x + (y + rest);
            &&& p.len() >= 8
            &&& p[0] == x[0] && p[1] == x[1] && p[2] == x[2] && p[3] == x[3]
            &&& p[4] == y[0] && p[5] == y[1] && p[6] == y[2] && p[7] == y[3]
        }),
{
}

/// The bytes of numbers stand row by row: the byte `k` of the number `i`, counted from the low end,
/// is the `i`-th of the row `k`.
pub proof fn law_rows(numbers: Seq<u32>, k: int, i: int)
    requires
        0 <= k < 4,
        0 <= i < numbers.len(),
    ensures
        ({
            let scale: int = if k == 0 {
                1
            } else if k == 1 {
                0x100
            } else if k == 2 {
                0x1_0000
            } else {
                0x100_0000
            };
            &&& transposed(numbers).len() == 4 * numbers.len()
            &&& transposed(numbers)[k * numbers.len() + i] == numbers[i] as int / scale % 256
        }),
{
    let n = numbers.len() as int;
    let (r0, r1, r2, r3) = (row(numbers, 0), row(numbers, 1), row(numbers, 2), row(numbers, 3));
    assert(transposed(numbers) == r0 + r1 + r2 + r3);
    if k == 0 {
        assert(transposed(numbers)[i] == r0[i]);
    } else if k == 1 {
        assert(transposed(numbers)[n + i] == r1[i]);
    } else if k == 2 {
        assert(transposed(numbers)[2 * n + i] == r2[i]);
    } else {
        assert(transposed(numbers)[3 * n + i] == r3[i]);
    }
}

/// A positive difference is stored as a number of variable length. Any other is stored as a zero
/// byte and the number without its sign.
pub proof fn law_id_layout(delta: i64)
    ensures
        delta > 0 ==> varint_in(id_bytes(delta)) == Some((delta as u64, Seq::<u8>::empty())),
        delta <= 0 ==> id_bytes(delta)[0] == 0 && varint_in(id_bytes(delta).skip(1)) == Some(
            ((-delta) as u64, Seq::<u8>::empty()),
        ),
{
    let none = Seq::<u8>::empty();
    if delta > 0 {
        law_varint_roundtrip(delta as u64, none);
        assert(varint_bytes(delta as u64) + none =~= varint_bytes(delta as u64));
    } else {
        let bytes = varint_bytes((-delta) as u64);
        law_varint_roundtrip((-delta) as u64, none);
        assert(id_bytes(delta).skip(1) =~= bytes + none);
    }
}

/// A text is stored as its bytes in UTF-8, in its encoded form, with a zero behind them.
pub proof fn law_text_layout(text: Seq<char>)
    ensures
        text_bytes(text).last() == 0,
        text_bytes(text).drop_last() == encode_utf8(case_encoded(text)),
{
    let bytes = encode_utf8(case_encoded(text));
    assert(text_bytes(text).drop_last() =~= bytes);
}

} // verus!
