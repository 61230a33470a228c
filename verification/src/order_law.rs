//! What decides the order of two events, and that the order in which they are given does not matter
//! where no two of them have the same key.

use vstd::prelude::*;
use vstd::seq_lib::to_multiset_build;
use vstd::utf8::{encode_utf8, encode_utf8_decode_utf8};
use crate::codec::encoded;
use crate::events::Event;
use crate::order::{
    bytes_before, in_order, inserted, key_before, law_in_order, lemma_bytes_asymmetric,
    lemma_from_events, lemma_in_order_len,
};

verus! {

/// The events have the same number, as text, and the same type.
pub open spec fn same_key(a: Event, b: Event) -> bool {
    a.id == b.id && a.event_type == b.event_type
}

/// No two events have the same key.
pub open spec fn has_distinct_keys(events: Seq<Event>) -> bool {
    forall|i: int, j: int|
        0 <= i < j < events.len() ==> !same_key(#[trigger] events[i], #[trigger] events[j])
}

/// No event has a key that comes before that of an event ahead of it.
spec fn is_in_order(events: Seq<Event>) -> bool {
    forall|i: int, j: int|
        0 <= i < j < events.len() ==> !key_before(#[trigger] events[j], #[trigger] events[i])
}

/// Of two texts that differ, one comes before the other.
proof fn lemma_bytes_total(a: Seq<u8>, b: Seq<u8>)
    ensures
        bytes_before(a, b) || bytes_before(b, a) || a == b,
    decreases a.len(),
{
    if a.len() > 0 && b.len() > 0 && a[0] == b[0] {
        lemma_bytes_total(a.skip(1), b.skip(1));
        if a.skip(1) == b.skip(1) {
            assert(a =~= seq![a[0]] + a.skip(1));
            assert(b =~= seq![b[0]] + b.skip(1));
        }
    } else if a.len() == 0 && b.len() == 0 {
        assert(a =~= b);
    }
}

/// Of two events with different keys, one comes before the other.
proof fn lemma_keys_total(a: Event, b: Event)
    ensures
        key_before(a, b) || key_before(b, a) || same_key(a, b),
{
    lemma_bytes_total(encode_utf8(a.id), encode_utf8(b.id));
    lemma_bytes_total(encode_utf8(a.event_type), encode_utf8(b.event_type));
    encode_utf8_decode_utf8(a.id);
    encode_utf8_decode_utf8(b.id);
    encode_utf8_decode_utf8(a.event_type);
    encode_utf8_decode_utf8(b.event_type);
}

proof fn lemma_distinct_unique(events: Seq<Event>)
    requires
        has_distinct_keys(events),
    ensures
        events.no_duplicates(),
{
    assert forall|i: int, j: int|
        0 <= i < events.len() && 0 <= j < events.len() && i != j implies events[i] != events[j] by {
        if i < j {
            assert(!same_key(events[i], events[j]));
        } else {
            assert(!same_key(events[j], events[i]));
        }
    }
}

/// Putting events in order keeps their keys distinct.
proof fn lemma_distinct_in_order(events: Seq<Event>)
    requires
        has_distinct_keys(events),
    ensures
        has_distinct_keys(in_order(events)),
{
    let sorted = in_order(events);
    law_in_order(events);
    lemma_in_order_len(events);
    lemma_distinct_unique(events);
    events.lemma_multiset_has_no_duplicates();
    sorted.lemma_multiset_has_no_duplicates_conv();
    assert forall|i: int, j: int| 0 <= i < j < sorted.len() implies !same_key(
        #[trigger] sorted[i],
        #[trigger] sorted[j],
    ) by {
        lemma_from_events(events, i);
        lemma_from_events(events, j);
        let p = choose|p: int| 0 <= p < events.len() && #[trigger] events[p] == sorted[i];
        let q = choose|q: int| 0 <= q < events.len() && #[trigger] events[q] == sorted[j];
        assert(sorted[i] != sorted[j]);
        if p < q {
            assert(!same_key(events[p], events[q]));
        } else {
            assert(!same_key(events[q], events[p]));
        }
    }
}

/// There is one way to put events with distinct keys in order.
proof fn lemma_one_order(s: Seq<Event>, t: Seq<Event>)
    requires
        is_in_order(s),
        is_in_order(t),
        has_distinct_keys(s),
        s.to_multiset() == t.to_multiset(),
    ensures
        s == t,
    decreases s.len(),
{
    s.to_multiset_ensures();
    t.to_multiset_ensures();
    assert(s.len() == t.len());
    if s.len() > 0 {
        let n = s.len() - 1;
        lemma_same_last(s, t);
        let x = s[n];
        let left = s.drop_last();
        let right = t.drop_last();
        assert(s =~= left.push(x));
        assert(t =~= right.push(x));
        to_multiset_build(left, x);
        to_multiset_build(right, x);
        assert(left.to_multiset() =~= left.to_multiset().insert(x).remove(x));
        assert(right.to_multiset() =~= right.to_multiset().insert(x).remove(x));
        assert(is_in_order(left)) by {
            assert forall|i: int, j: int| 0 <= i < j < left.len() implies !key_before(
                #[trigger] left[j],
                #[trigger] left[i],
            ) by {
                assert(left[j] == s[j] && left[i] == s[i]);
            }
        }
        assert(is_in_order(right)) by {
            assert forall|i: int, j: int| 0 <= i < j < right.len() implies !key_before(
                #[trigger] right[j],
                #[trigger] right[i],
            ) by {
                assert(right[j] == t[j] && right[i] == t[i]);
            }
        }
        assert(has_distinct_keys(left)) by {
            assert forall|i: int, j: int| 0 <= i < j < left.len() implies !same_key(
                #[trigger] left[i],
                #[trigger] left[j],
            ) by {
                assert(left[j] == s[j] && left[i] == s[i]);
            }
        }
        lemma_one_order(left, right);
    } else {
        assert(s =~= t);
    }
}

proof fn lemma_same_last(s: Seq<Event>, t: Seq<Event>)
    requires
        is_in_order(s),
        is_in_order(t),
        has_distinct_keys(s),
        s.to_multiset() == t.to_multiset(),
        s.len() == t.len() > 0,
    ensures
        s[s.len() - 1] == t[t.len() - 1],
{
    let n = s.len() - 1;
    s.to_multiset_ensures();
    t.to_multiset_ensures();
    assert(s.contains(s[n]));
    assert(s.to_multiset().count(s[n]) > 0);
    assert(t.contains(s[n]));
    assert(t.contains(t[n]));
    assert(t.to_multiset().count(t[n]) > 0);
    assert(s.contains(t[n]));
    let k = choose|k: int| 0 <= k < t.len() && t[k] == s[n];
    let m = choose|m: int| 0 <= m < s.len() && s[m] == t[n];
    if k < n && m < n {
        assert(!key_before(t[n], t[k]));
        assert(!key_before(s[n], s[m]));
        lemma_keys_total(s[n], t[n]);
        assert(!same_key(s[m], s[n]));
    }
}

/// The same events, with distinct keys, are put in the same order however they are given.
pub proof fn law_order_independent(a: Seq<Event>, b: Seq<Event>)
    requires
        a.to_multiset() == b.to_multiset(),
        has_distinct_keys(a),
    ensures
        in_order(a) == in_order(b),
{
    law_in_order(a);
    law_in_order(b);
    lemma_in_order_len(a);
    lemma_in_order_len(b);
    lemma_distinct_in_order(a);
    lemma_one_order(in_order(a), in_order(b));
}

/// The same events, with distinct keys, have the same encoding however they are given.
pub proof fn law_encoding_order_independent(a: Seq<Event>, b: Seq<Event>)
    requires
        a.to_multiset() == b.to_multiset(),
        has_distinct_keys(a),
    ensures
        encoded(a) == encoded(b),
{
    law_order_independent(a, b);
}

/// The texts are the same in their first `i` bytes.
pub open spec fn same_up_to(a: Seq<u8>, b: Seq<u8>, i: int) -> bool {
    0 <= i <= a.len() && i <= b.len() && a.take(i) == b.take(i)
}

/// The first difference decides: at its place `b` has the larger byte, or `a` has ended.
pub open spec fn is_decided_at(a: Seq<u8>, b: Seq<u8>, i: int) -> bool {
    &&& same_up_to(a, b, i)
    &&& i < b.len()
    &&& i < a.len() ==> a[i] < b[i]
}

proof fn lemma_decided(a: Seq<u8>, b: Seq<u8>)
    ensures
        bytes_before(a, b) ==> exists|i: int| #[trigger] is_decided_at(a, b, i),
    decreases a.len(),
{
    if bytes_before(a, b) {
        if a.len() == 0 || a[0] != b[0] {
            assert(a.take(0) =~= b.take(0));
            assert(is_decided_at(a, b, 0));
        } else {
            lemma_decided(a.skip(1), b.skip(1));
            let i = choose|i: int| #[trigger] is_decided_at(a.skip(1), b.skip(1), i);
            let (x, y) = (a.take(i + 1), b.take(i + 1));
            assert forall|k: int| 0 <= k < i + 1 implies x[k] == y[k] by {
                if k > 0 {
                    assert(a.skip(1).take(i)[k - 1] == b.skip(1).take(i)[k - 1]);
                }
            }
            assert(x =~= y);
            assert(is_decided_at(a, b, i + 1));
        }
    }
}

proof fn lemma_decides(a: Seq<u8>, b: Seq<u8>, i: int)
    requires
        is_decided_at(a, b, i),
    ensures
        bytes_before(a, b),
    decreases i,
{
    if i > 0 {
        assert(a.take(i)[0] == b.take(i)[0]);
        let (x, y) = (a.skip(1).take(i - 1), b.skip(1).take(i - 1));
        assert forall|k: int| 0 <= k < i - 1 implies x[k] == y[k] by {
            assert(a.take(i)[k + 1] == b.take(i)[k + 1]);
        }
        assert(x =~= y);
        lemma_decides(a.skip(1), b.skip(1), i - 1);
    }
}

/// A text comes before another just where the first byte in which they differ is the smaller one,
/// or where it has none.
pub proof fn law_bytes_order(a: Seq<u8>, b: Seq<u8>)
    ensures
        bytes_before(a, b) <==> exists|i: int| #[trigger] is_decided_at(a, b, i),
{
    lemma_decided(a, b);
    if exists|i: int| #[trigger] is_decided_at(a, b, i) {
        lemma_decides(a, b, choose|i: int| #[trigger] is_decided_at(a, b, i));
    }
}

/// Events are ordered by the bytes of their numbers, as text. Those of the same number are ordered
/// by the bytes of their types.
pub proof fn law_key_order(a: Event, b: Event)
    ensures
        a.id != b.id ==> (key_before(a, b) <==> bytes_before(encode_utf8(a.id), encode_utf8(b.id))),
        a.id == b.id ==> (key_before(a, b) <==> bytes_before(
            encode_utf8(a.event_type),
            encode_utf8(b.event_type),
        )),
        key_before(a, b) ==> !key_before(b, a),
{
    lemma_bytes_total(encode_utf8(a.id), encode_utf8(b.id));
    encode_utf8_decode_utf8(a.id);
    encode_utf8_decode_utf8(b.id);
    lemma_bytes_asymmetric(encode_utf8(a.id), encode_utf8(b.id));
    lemma_bytes_asymmetric(encode_utf8(a.event_type), encode_utf8(b.event_type));
}

/// The events with the key of `event`, in their order.
pub open spec fn with_key_of(events: Seq<Event>, event: Event) -> Seq<Event> {
    events.filter(|x: Event| same_key(x, event))
}

proof fn lemma_filter_push(events: Seq<Event>, x: Event, event: Event)
    ensures
        with_key_of(events.push(x), event) == if same_key(x, event) {
            with_key_of(events, event).push(x)
        } else {
            with_key_of(events, event)
        },
{
    reveal(Seq::filter);
    assert(events.push(x).drop_last() =~= events);
}

proof fn lemma_inserted_stable(sorted: Seq<Event>, x: Event, event: Event)
    ensures
        with_key_of(inserted(sorted, x), event) == with_key_of(sorted.push(x), event),
    decreases sorted.len(),
{
    if sorted.len() > 0 && key_before(x, sorted.last()) {
        let left = sorted.drop_last();
        let last = sorted.last();
        lemma_inserted_stable(left, x, event);
        lemma_filter_push(inserted(left, x), last, event);
        lemma_filter_push(left, x, event);
        lemma_filter_push(left, last, event);
        lemma_filter_push(sorted, x, event);
        assert(sorted =~= left.push(last));
        if same_key(x, event) && same_key(last, event) {
            law_key_order(x, last);
            lemma_bytes_asymmetric(encode_utf8(x.event_type), encode_utf8(last.event_type));
        }
    }
}

/// Events with the same key keep their order.
pub proof fn law_stable(events: Seq<Event>, event: Event)
    ensures
        with_key_of(in_order(events), event) == with_key_of(events, event),
    decreases events.len(),
{
    if events.len() > 0 {
        let left = events.drop_last();
        let last = events.last();
        law_stable(left, event);
        lemma_inserted_stable(in_order(left), last, event);
        lemma_filter_push(in_order(left), last, event);
        lemma_filter_push(left, last, event);
        assert(events =~= left.push(last));
    } else {
        assert(in_order(events) =~= events);
    }
}

} // verus!
