//! The order of events by their keys.

use vstd::prelude::*;
use vstd::seq_lib::to_multiset_build;
use vstd::utf8::encode_utf8;
use crate::events::{event_of, events_of, Event, EventKey, EventValue};

verus! {

/// `a` comes before `b` in the order of their bytes: the first byte that differs decides, and a
/// text comes before those that it begins.
pub open spec fn bytes_before(a: Seq<u8>, b: Seq<u8>) -> bool
    decreases a.len(),
{
    if b.len() == 0 {
        false
    } else if a.len() == 0 {
        true
    } else if a[0] != b[0] {
        a[0] < b[0]
    } else {
        bytes_before(a.skip(1), b.skip(1))
    }
}

/// A text comes before another in the order of their bytes.
pub open spec fn text_before(a: Seq<char>, b: Seq<char>) -> bool {
    bytes_before(encode_utf8(a), encode_utf8(b))
}

/// The key of `a` comes before that of `b`: by the number of the event, as text, and then by its
/// type.
pub open spec fn key_before(a: Event, b: Event) -> bool {
    ||| text_before(a.id, b.id)
    ||| !text_before(b.id, a.id) && text_before(a.event_type, b.event_type)
}

/// `sorted` with `event` behind all whose keys do not come after its own.
pub open spec fn inserted(sorted: Seq<Event>, event: Event) -> Seq<Event>
    decreases sorted.len(),
{
    if sorted.len() > 0 && key_before(event, sorted.last()) {
        inserted(sorted.drop_last(), event).push(sorted.last())
    } else {
        sorted.push(event)
    }
}

/// The events in the order of their keys. Events with the same key keep their order.
pub open spec fn in_order(events: Seq<Event>) -> Seq<Event>
    decreases events.len(),
{
    if events.len() == 0 {
        Seq::empty()
    } else {
        inserted(in_order(events.drop_last()), events.last())
    }
}

/// Nothing comes before itself, and no two texts come before each other.
pub proof fn lemma_bytes_asymmetric(a: Seq<u8>, b: Seq<u8>)
    ensures
        !(bytes_before(a, b) && bytes_before(b, a)),
    decreases a.len(),
{
    if a.len() > 0 && b.len() > 0 && a[0] == b[0] {
        lemma_bytes_asymmetric(a.skip(1), b.skip(1));
    }
}

/// The order is transitive, also where one step goes between texts that are not before each
/// other.
proof fn lemma_bytes_transitive(a: Seq<u8>, b: Seq<u8>, c: Seq<u8>)
    ensures
        bytes_before(a, b) && bytes_before(b, c) ==> bytes_before(a, c),
        !bytes_before(b, a) && bytes_before(b, c) ==> bytes_before(a, c),
        bytes_before(a, b) && !bytes_before(c, b) ==> bytes_before(a, c),
        !bytes_before(b, a) && !bytes_before(c, b) ==> !bytes_before(c, a),
    decreases a.len() + b.len() + c.len(),
{
    if a.len() > 0 && b.len() > 0 && c.len() > 0 && a[0] == b[0] && b[0] == c[0] {
        lemma_bytes_transitive(a.skip(1), b.skip(1), c.skip(1));
    }
}

/// The order of keys is an order.
proof fn lemma_key_order(a: Event, b: Event, c: Event)
    ensures
        !key_before(a, a),
        !(key_before(a, b) && key_before(b, a)),
        key_before(a, b) && key_before(b, c) ==> key_before(a, c),
        !key_before(b, a) && key_before(b, c) ==> key_before(a, c),
        key_before(a, b) && !key_before(c, b) ==> key_before(a, c),
        !key_before(b, a) && !key_before(c, b) ==> !key_before(c, a),
{
    let (x, y, z) = (encode_utf8(a.id), encode_utf8(b.id), encode_utf8(c.id));
    let (u, v, w) = (
        encode_utf8(a.event_type),
        encode_utf8(b.event_type),
        encode_utf8(c.event_type),
    );
    lemma_bytes_asymmetric(x, x);
    lemma_bytes_asymmetric(u, u);
    lemma_bytes_asymmetric(x, y);
    lemma_bytes_asymmetric(y, z);
    lemma_bytes_asymmetric(x, z);
    lemma_bytes_asymmetric(u, v);
    lemma_bytes_asymmetric(v, w);
    lemma_bytes_asymmetric(u, w);
    lemma_bytes_transitive(x, y, z);
    lemma_bytes_transitive(z, y, x);
    lemma_bytes_transitive(u, v, w);
}

/// Events that are in order stay as they are.
pub proof fn law_order_kept(events: Seq<Event>)
    requires
        forall|i: int, j: int|
            0 <= i < j < events.len() ==> !key_before(#[trigger] events[j], #[trigger] events[i]),
    ensures
        in_order(events) == events,
    decreases events.len(),
{
    if events.len() > 0 {
        let left = events.drop_last();
        assert forall|i: int, j: int| 0 <= i < j < left.len() implies !key_before(
            #[trigger] left[j],
            #[trigger] left[i],
        ) by {
            assert(left[j] == events[j] && left[i] == events[i]);
        }
        law_order_kept(left);
        if left.len() > 0 {
            assert(!key_before(events[events.len() - 1], events[left.len() - 1]));
        }
        assert(events =~= left.push(events.last()));
    }
}

/// The same events come out, and none whose key comes before that of an event ahead of it.
pub proof fn law_in_order(events: Seq<Event>)
    ensures
        in_order(events).to_multiset() == events.to_multiset(),
        forall|i: int, j: int|
            0 <= i < j < events.len() ==> !key_before(
                #[trigger] in_order(events)[j],
                #[trigger] in_order(events)[i],
            ),
    decreases events.len(),
{
    if events.len() > 0 {
        let left = events.drop_last();
        let sorted = in_order(left);
        law_in_order(left);
        lemma_in_order_len(left);
        lemma_inserted(sorted, events.last());
        assert(events =~= left.push(events.last()));
        lemma_inserted_len(sorted, events.last());
        to_multiset_build(left, events.last());
    } else {
        assert(events =~= Seq::empty());
    }
}

proof fn lemma_inserted(sorted: Seq<Event>, event: Event)
    requires
        forall|i: int, j: int|
            0 <= i < j < sorted.len() ==> !key_before(#[trigger] sorted[j], #[trigger] sorted[i]),
    ensures
        inserted(sorted, event).to_multiset() == sorted.to_multiset().insert(event),
        forall|i: int, j: int|
            0 <= i < j < inserted(sorted, event).len() ==> !key_before(
                #[trigger] inserted(sorted, event)[j],
                #[trigger] inserted(sorted, event)[i],
            ),
        forall|i: int|
            0 <= i < inserted(sorted, event).len() ==> #[trigger] inserted(sorted, event)[i]
                == event || sorted.contains(inserted(sorted, event)[i]),
    decreases sorted.len(),
{
    let new = inserted(sorted, event);
    if sorted.len() > 0 && key_before(event, sorted.last()) {
        let left = sorted.drop_last();
        let last = sorted.last();
        let most = inserted(left, event);
        assert forall|i: int, j: int| 0 <= i < j < left.len() implies !key_before(
            #[trigger] left[j],
            #[trigger] left[i],
        ) by {
            assert(left[j] == sorted[j] && left[i] == sorted[i]);
        }
        lemma_inserted(left, event);
        to_multiset_build(left, last);
        to_multiset_build(most, last);
        assert(sorted =~= left.push(last));
        assert(new.to_multiset() =~= sorted.to_multiset().insert(event));
        assert forall|i: int| 0 <= i < new.len() implies #[trigger] new[i] == event
            || sorted.contains(new[i]) by {
            if i < most.len() {
                assert(new[i] == most[i]);
                if most[i] != event {
                    let k = choose|k: int| 0 <= k < left.len() && left[k] == most[i];
                    assert(sorted[k] == new[i]);
                }
            } else {
                assert(sorted[sorted.len() - 1] == new[i]);
            }
        }
        assert forall|i: int, j: int| 0 <= i < j < new.len() implies !key_before(
            #[trigger] new[j],
            #[trigger] new[i],
        ) by {
            if j == most.len() {
                assert(new[i] == most[i]);
                lemma_key_order(event, last, event);
                if most[i] != event {
                    let k = choose|k: int| 0 <= k < left.len() && left[k] == most[i];
                    assert(sorted[k] == new[i] && sorted[sorted.len() - 1] == new[j]);
                }
            } else {
                assert(new[i] == most[i] && new[j] == most[j]);
            }
        }
    } else {
        to_multiset_build(sorted, event);
        assert forall|i: int| 0 <= i < new.len() implies #[trigger] new[i] == event
            || sorted.contains(new[i]) by {
            if i < sorted.len() {
                assert(sorted[i] == new[i]);
            }
        }
        assert forall|i: int, j: int| 0 <= i < j < new.len() implies !key_before(
            #[trigger] new[j],
            #[trigger] new[i],
        ) by {
            if j == sorted.len() {
                assert(new[i] == sorted[i]);
                if i < sorted.len() - 1 {
                    assert(!key_before(sorted[sorted.len() - 1], sorted[i]));
                    lemma_key_order(sorted[i], sorted.last(), event);
                }
            } else {
                assert(new[i] == sorted[i] && new[j] == sorted[j]);
            }
        }
    }
}

/// An event is among the sorted ones.
pub proof fn lemma_same_events(events: Seq<Event>, i: int)
    requires
        0 <= i < events.len(),
    ensures
        exists|k: int| 0 <= k < events.len() && #[trigger] in_order(events)[k] == events[i],
{
    let sorted = in_order(events);
    law_in_order(events);
    lemma_in_order_len(events);
    events.to_multiset_ensures();
    sorted.to_multiset_ensures();
    assert(events.contains(events[i]));
    assert(events.to_multiset().count(events[i]) > 0);
    assert(sorted.contains(events[i]));
}

/// A sorted event is one of the events.
pub proof fn lemma_from_events(events: Seq<Event>, k: int)
    requires
        0 <= k < events.len(),
    ensures
        exists|i: int| 0 <= i < events.len() && #[trigger] events[i] == in_order(events)[k],
{
    let sorted = in_order(events);
    law_in_order(events);
    lemma_in_order_len(events);
    events.to_multiset_ensures();
    sorted.to_multiset_ensures();
    assert(sorted.contains(sorted[k]));
    assert(sorted.to_multiset().count(sorted[k]) > 0);
    assert(events.contains(sorted[k]));
}

/// The event number `i` belongs before the event number `j`.
spec fn goes_before(events: Seq<Event>, i: usize, j: usize) -> bool {
    key_before(events[i as int], events[j as int]) || (!key_before(
        events[j as int],
        events[i as int],
    ) && i < j)
}

/// The numbers stand in the order of the events' keys, and no number stands twice.
spec fn is_sorted(events: Seq<Event>, numbers: Seq<usize>) -> bool {
    forall|p: int, q: int|
        0 <= p < q < numbers.len() ==> goes_before(
            events,
            #[trigger] numbers[p],
            #[trigger] numbers[q],
        )
}

/// The numbers are those from `from` on below `to`.
spec fn is_range(numbers: Seq<usize>, from: int, to: int) -> bool {
    forall|i: usize| #[trigger] numbers.contains(i) <==> from <= i < to
}

/// The numbers of events, with `number` behind all whose keys do not come after its own.
spec fn number_inserted(events: Seq<Event>, sorted: Seq<usize>, number: usize) -> Seq<usize>
    decreases sorted.len(),
{
    if sorted.len() > 0 && key_before(events[number as int], events[sorted.last() as int]) {
        number_inserted(events, sorted.drop_last(), number).push(sorted.last())
    } else {
        sorted.push(number)
    }
}

/// The numbers of the first `n` events in the order of their keys.
spec fn numbers_in_order(events: Seq<Event>, n: int) -> Seq<usize>
    decreases n,
{
    if n <= 0 {
        Seq::empty()
    } else {
        number_inserted(events, numbers_in_order(events, n - 1), (n - 1) as usize)
    }
}

/// The events with these numbers.
spec fn picked(events: Seq<Event>, numbers: Seq<usize>) -> Seq<Event> {
    Seq::new(numbers.len(), |i: int| events[numbers[i] as int])
}

proof fn lemma_picked_inserted(events: Seq<Event>, sorted: Seq<usize>, number: usize)
    ensures
        picked(events, number_inserted(events, sorted, number)) == inserted(
            picked(events, sorted),
            events[number as int],
        ),
    decreases sorted.len(),
{
    let before = picked(events, sorted);
    if sorted.len() > 0 && key_before(events[number as int], events[sorted.last() as int]) {
        assert(before.drop_last() =~= picked(events, sorted.drop_last()));
        lemma_picked_inserted(events, sorted.drop_last(), number);
        assert(picked(events, number_inserted(events, sorted, number)) =~= inserted(
            before.drop_last(),
            events[number as int],
        ).push(before.last()));
    } else {
        assert(picked(events, sorted.push(number)) =~= before.push(events[number as int]));
    }
}

proof fn lemma_picked_in_order(events: Seq<Event>, n: int)
    requires
        0 <= n <= events.len(),
        events.len() <= usize::MAX,
    ensures
        picked(events, numbers_in_order(events, n)) == in_order(events.take(n)),
    decreases n,
{
    if n > 0 {
        lemma_picked_in_order(events, n - 1);
        assert(events.take(n).drop_last() =~= events.take(n - 1));
        lemma_picked_inserted(events, numbers_in_order(events, n - 1), (n - 1) as usize);
    } else {
        assert(picked(events, Seq::empty()) =~= Seq::empty());
    }
}

proof fn lemma_number_inserted(events: Seq<Event>, sorted: Seq<usize>, number: usize)
    requires
        is_sorted(events, sorted),
        forall|i: usize| #[trigger] sorted.contains(i) ==> i < number,
    ensures
        is_sorted(events, number_inserted(events, sorted, number)),
        forall|i: usize| #[trigger]
            number_inserted(events, sorted, number).contains(i) <==> i == number
                || sorted.contains(i),
    decreases sorted.len(),
{
    let new = number_inserted(events, sorted, number);
    if sorted.len() > 0 && key_before(events[number as int], events[sorted.last() as int]) {
        let last = sorted.last();
        let left = sorted.drop_last();
        assert forall|i: usize| #[trigger] left.contains(i) implies i < number by {
            let k = choose|k: int| 0 <= k < left.len() && left[k] == i;
            assert(sorted[k] == i);
            assert(sorted.contains(i));
        }
        lemma_number_inserted(events, left, number);
        let most = number_inserted(events, left, number);
        assert forall|p: int, q: int| 0 <= p < q < new.len() implies goes_before(
            events,
            #[trigger] new[p],
            #[trigger] new[q],
        ) by {
            if q == new.len() - 1 {
                assert(most.contains(most[p]));
                if most[p] != number {
                    let k = choose|k: int| 0 <= k < left.len() && left[k] == most[p];
                    assert(sorted[k] == most[p] && sorted[sorted.len() - 1] == last);
                }
            } else {
                assert(new[p] == most[p] && new[q] == most[q]);
            }
        }
        assert forall|i: usize| #[trigger] new.contains(i) <==> i == number || sorted.contains(
            i,
        ) by {
            lemma_contains_push(most, last, i);
            lemma_contains_push(left, last, i);
            assert(left.push(last) =~= sorted);
        }
    } else {
        assert forall|p: int, q: int| 0 <= p < q < new.len() implies goes_before(
            events,
            #[trigger] new[p],
            #[trigger] new[q],
        ) by {
            if q == new.len() - 1 {
                assert(sorted.contains(sorted[p]));
                let last = sorted.last();
                if p < sorted.len() - 1 {
                    assert(goes_before(events, sorted[p], sorted[sorted.len() - 1]));
                    lemma_key_order(
                        events[sorted[p] as int],
                        events[last as int],
                        events[number as int],
                    );
                    lemma_key_order(
                        events[last as int],
                        events[sorted[p] as int],
                        events[number as int],
                    );
                }
            } else {
                assert(new[p] == sorted[p] && new[q] == sorted[q]);
            }
        }
        assert forall|i: usize| #[trigger] new.contains(i) <==> i == number || sorted.contains(
            i,
        ) by {
            lemma_contains_push(sorted, number, i);
        }
    }
}

proof fn lemma_contains_push(s: Seq<usize>, x: usize, i: usize)
    ensures
        s.push(x).contains(i) <==> i == x || s.contains(i),
{
    if s.contains(i) {
        let k = choose|k: int| 0 <= k < s.len() && s[k] == i;
        assert(s.push(x)[k] == i);
    }
    assert(s.push(x)[s.len() as int] == x);
    if s.push(x).contains(i) && i != x {
        let k = choose|k: int| 0 <= k < s.push(x).len() && s.push(x)[k] == i;
        assert(s[k] == i);
    }
}

proof fn lemma_numbers_in_order(events: Seq<Event>, n: int)
    requires
        0 <= n <= events.len(),
        events.len() <= usize::MAX,
    ensures
        is_sorted(events, numbers_in_order(events, n)),
        is_range(numbers_in_order(events, n), 0, n),
    decreases n,
{
    if n > 0 {
        lemma_numbers_in_order(events, n - 1);
        lemma_number_inserted(events, numbers_in_order(events, n - 1), (n - 1) as usize);
    }
}

/// There is only one way to stand in order.
proof fn lemma_sorted_unique(events: Seq<Event>, s: Seq<usize>, t: Seq<usize>)
    requires
        is_sorted(events, s),
        is_sorted(events, t),
        forall|i: usize| #[trigger] s.contains(i) <==> t.contains(i),
    ensures
        s == t,
    decreases s.len(),
{
    if s.len() == 0 {
        if t.len() > 0 {
            assert(t.contains(t[0]));
            assert(s.contains(t[0]));
        }
        assert(s =~= t);
    } else {
        let x = s.last();
        assert(s.contains(x));
        let k = choose|k: int| 0 <= k < t.len() && t[k] == x;
        let y = t.last();
        assert(t.contains(y));
        assert(s.contains(y));
        let m = choose|m: int| 0 <= m < s.len() && s[m] == y;
        lemma_key_order(events[x as int], events[y as int], events[x as int]);
        if k < t.len() - 1 && m < s.len() - 1 {
            assert(goes_before(events, t[k], t[t.len() - 1]));
            assert(goes_before(events, s[m], s[s.len() - 1]));
        }
        assert(x == y);
        let s1 = s.drop_last();
        let t1 = t.drop_last();
        assert forall|i: usize| #[trigger] s1.contains(i) <==> t1.contains(i) by {
            lemma_contains_push(s1, x, i);
            lemma_contains_push(t1, x, i);
            assert(s1.push(x) =~= s);
            assert(t1.push(x) =~= t);
            assert(s.contains(i) <==> t.contains(i));
            lemma_key_order(events[x as int], events[x as int], events[x as int]);
            if s1.contains(x) {
                let p = choose|p: int| 0 <= p < s1.len() && s1[p] == x;
                assert(goes_before(events, s[p], s[s.len() - 1]));
            }
            if t1.contains(x) {
                let p = choose|p: int| 0 <= p < t1.len() && t1[p] == x;
                assert(goes_before(events, t[p], t[t.len() - 1]));
            }
        }
        lemma_sorted_unique(events, s1, t1);
        assert(s =~= s1.push(x));
        assert(t =~= t1.push(x));
    }
}

/// Whether `a` comes before `b` in the order of their bytes.
fn is_text_before(a: &str, b: &str) -> (r: bool)
    ensures
        r == text_before(a@, b@),
{
    let x: &[u8] = a.as_bytes();
    let y: &[u8] = b.as_bytes();
    let mut i: usize = 0;
    assert(x@.skip(0) =~= x@);
    assert(y@.skip(0) =~= y@);
    while i < x.len() && i < y.len()
        invariant
            i <= x.len(),
            i <= y.len(),
            text_before(a@, b@) == bytes_before(x@.skip(i as int), y@.skip(i as int)),
        decreases x.len() - i,
    {
        if x[i] != y[i] {
            return x[i] < y[i];
        }
        assert(x@.skip(i as int).skip(1) =~= x@.skip(i + 1));
        assert(y@.skip(i as int).skip(1) =~= y@.skip(i + 1));
        i = i + 1;
    }
    i < y.len()
}

/// Whether the key `a` comes before the key `b`.
fn is_key_before(a: &(EventKey, EventValue), b: &(EventKey, EventValue)) -> (r: bool)
    ensures
        r == key_before(event_of(*a), event_of(*b)),
{
    is_text_before(a.0.id.as_str(), b.0.id.as_str()) || (!is_text_before(
        b.0.id.as_str(),
        a.0.id.as_str(),
    ) && is_text_before(a.0.event_type.as_str(), b.0.event_type.as_str()))
}

/// Puts two sorted ranges of numbers together.
fn merge(entries: &[(EventKey, EventValue)], a: Vec<usize>, b: Vec<usize>) -> (r: Vec<usize>)
    requires
        is_sorted(events_of(entries@), a@),
        is_sorted(events_of(entries@), b@),
        forall|p: int| 0 <= p < a.len() ==> (#[trigger] a@[p]) < entries.len(),
        forall|q: int| 0 <= q < b.len() ==> (#[trigger] b@[q]) < entries.len(),
        forall|p: int, q: int|
            0 <= p < a.len() && 0 <= q < b.len() ==> #[trigger] a@[p] < #[trigger] b@[q],
    ensures
        is_sorted(events_of(entries@), r@),
        forall|i: usize| #[trigger] r@.contains(i) <==> a@.contains(i) || b@.contains(i),
{
    let ghost events = events_of(entries@);
    let mut out: Vec<usize> = Vec::new();
    let mut i: usize = 0;
    let mut j: usize = 0;
    while i < a.len() || j < b.len()
        invariant
            i <= a.len(),
            j <= b.len(),
            events == events_of(entries@),
            is_sorted(events, a@),
            is_sorted(events, b@),
            forall|p: int| 0 <= p < a.len() ==> (#[trigger] a@[p]) < entries.len(),
            forall|q: int| 0 <= q < b.len() ==> (#[trigger] b@[q]) < entries.len(),
            forall|p: int, q: int|
                0 <= p < a.len() && 0 <= q < b.len() ==> #[trigger] a@[p] < #[trigger] b@[q],
            is_sorted(events, out@),
            forall|k: int, p: int|
                0 <= k < out.len() && i <= p < a.len() ==> goes_before(
                    events,
                    #[trigger] out@[k],
                    #[trigger] a@[p],
                ),
            forall|k: int, q: int|
                0 <= k < out.len() && j <= q < b.len() ==> goes_before(
                    events,
                    #[trigger] out@[k],
                    #[trigger] b@[q],
                ),
            forall|x: usize| #[trigger]
                out@.contains(x) <==> a@.take(i as int).contains(x) || b@.take(j as int).contains(
                    x,
                ),
        decreases a.len() - i + (b.len() - j),
    {
        let from_a: bool = j >= b.len() || (i < a.len() && !is_key_before(
            &entries[b[j]],
            &entries[a[i]],
        ));
        let ghost before = out@;
        if from_a {
            let x: usize = a[i];
            out.push(x);
            proof {
                assert forall|q: int| j <= q < b.len() implies goes_before(
                    events,
                    x,
                    #[trigger] b@[q],
                ) by {
                    assert(a@[i as int] < b@[j as int]);
                    assert(a@[i as int] < b@[q]);
                    if q > j {
                        assert(goes_before(events, b@[j as int], b@[q]));
                        lemma_key_order(
                            events[x as int],
                            events[b@[j as int] as int],
                            events[b@[q] as int],
                        );
                    }
                }
                assert(a@.take(i + 1) =~= a@.take(i as int).push(x));
                assert forall|y: usize| #[trigger]
                    out@.contains(y) <==> a@.take(i + 1).contains(y) || b@.take(j as int).contains(
                        y,
                    ) by {
                    lemma_contains_push(before, x, y);
                    lemma_contains_push(a@.take(i as int), x, y);
                    assert(before.contains(y) <==> a@.take(i as int).contains(y) || b@.take(
                        j as int,
                    ).contains(y));
                }
            }
            i = i + 1;
        } else {
            let x: usize = b[j];
            out.push(x);
            proof {
                assert forall|p: int| i <= p < a.len() implies goes_before(
                    events,
                    x,
                    #[trigger] a@[p],
                ) by {
                    if p > i {
                        assert(goes_before(events, a@[i as int], a@[p]));
                        lemma_key_order(
                            events[x as int],
                            events[a@[i as int] as int],
                            events[a@[p] as int],
                        );
                    }
                }
                assert(b@.take(j + 1) =~= b@.take(j as int).push(x));
                assert forall|y: usize| #[trigger]
                    out@.contains(y) <==> a@.take(i as int).contains(y) || b@.take(j + 1).contains(
                        y,
                    ) by {
                    lemma_contains_push(before, x, y);
                    lemma_contains_push(b@.take(j as int), x, y);
                    assert(before.contains(y) <==> a@.take(i as int).contains(y) || b@.take(
                        j as int,
                    ).contains(y));
                }
            }
            j = j + 1;
        }
    }
    assert(a@.take(i as int) =~= a@);
    assert(b@.take(j as int) =~= b@);
    out
}

/// Puts the numbers from `from` on below `to` in order.
fn sort_range(entries: &[(EventKey, EventValue)], from: usize, to: usize) -> (r: Vec<usize>)
    requires
        from <= to <= entries.len(),
    ensures
        is_sorted(events_of(entries@), r@),
        is_range(r@, from as int, to as int),
    decreases to - from,
{
    if to - from < 2 {
        let mut numbers: Vec<usize> = Vec::new();
        if from < to {
            numbers.push(from);
            assert(numbers@[0] == from);
        }
        return numbers;
    }
    let mid: usize = from + (to - from) / 2;
    let a: Vec<usize> = sort_range(entries, from, mid);
    let b: Vec<usize> = sort_range(entries, mid, to);
    proof {
        assert forall|p: int| 0 <= p < a.len() implies from <= #[trigger] a@[p] < mid by {
            assert(a@.contains(a@[p]));
        }
        assert forall|q: int| 0 <= q < b.len() implies mid <= #[trigger] b@[q] < to by {
            assert(b@.contains(b@[q]));
        }
    }
    merge(entries, a, b)
}

/// Gets the numbers of the entries in the order of their keys.
pub fn sorted_numbers(entries: &[(EventKey, EventValue)]) -> (r: Vec<usize>)
    ensures
        r.len() == entries.len(),
        forall|i: int| 0 <= i < r.len() ==> (#[trigger] r@[i]) < entries.len(),
        Seq::new(r@.len(), |i: int| events_of(entries@)[r@[i] as int]) == in_order(
            events_of(entries@),
        ),
{
    let numbers: Vec<usize> = sort_range(entries, 0, entries.len());
    proof {
        let events = events_of(entries@);
        let n = entries.len() as int;
        lemma_numbers_in_order(events, n);
        lemma_sorted_unique(events, numbers@, numbers_in_order(events, n));
        lemma_picked_in_order(events, n);
        assert(events.take(n) =~= events);
        assert(picked(events, numbers@) =~= Seq::new(
            numbers@.len(),
            |i: int| events[numbers@[i] as int],
        ));
        lemma_in_order_len(events);
        assert forall|i: int| 0 <= i < numbers.len() implies (#[trigger] numbers@[i])
            < entries.len() by {
            assert(numbers@.contains(numbers@[i]));
        }
    }
    numbers
}

proof fn lemma_inserted_len(sorted: Seq<Event>, event: Event)
    ensures
        inserted(sorted, event).len() == sorted.len() + 1,
    decreases sorted.len(),
{
    if sorted.len() > 0 && key_before(event, sorted.last()) {
        lemma_inserted_len(sorted.drop_last(), event);
    }
}

/// Putting events in order keeps their number.
pub proof fn lemma_in_order_len(events: Seq<Event>)
    ensures
        in_order(events).len() == events.len(),
    decreases events.len(),
{
    if events.len() > 0 {
        lemma_in_order_len(events.drop_last());
        lemma_inserted_len(in_order(events.drop_last()), events.last());
    }
}

} // verus!
