use vstd::prelude::*;
use vstd::seq_lib::to_multiset_insert;
use vstd::utf8::encode_utf8;
use crate::marks::{GlobalMark, GlobalMarkView};

verus! {

/// The dictionary order of byte strings: `a` comes before `b` or is `b`.
pub open spec fn bytes_le(a: Seq<u8>, b: Seq<u8>) -> bool
    decreases a.len(),
{
    if a.len() == 0 {
        true
    } else if b.len() == 0 {
        false
    } else if a[0] != b[0] {
        a[0] < b[0]
    } else {
        bytes_le(a.drop_first(), b.drop_first())
    }
}

/// The order of texts: the dictionary order of their UTF-8 bytes, which is
/// the order in which `String` compares.
pub open spec fn text_le(a: Seq<char>, b: Seq<char>) -> bool {
    bytes_le(encode_utf8(a), encode_utf8(b))
}

/// Of two byte strings one comes before the other, or they are equal.
pub proof fn lemma_bytes_le_total(a: Seq<u8>, b: Seq<u8>)
    ensures
        bytes_le(a, b) || bytes_le(b, a),
    decreases a.len(),
{
    if a.len() > 0 && b.len() > 0 && a[0] == b[0] {
        lemma_bytes_le_total(a.drop_first(), b.drop_first());
    }
}

/// A common beginning does not count in the order of two byte strings.
pub proof fn lemma_bytes_le_skip(a: Seq<u8>, b: Seq<u8>, n: int)
    requires
        0 <= n <= a.len(),
        n <= b.len(),
        a.take(n) == b.take(n),
    ensures
        bytes_le(a, b) == bytes_le(a.skip(n), b.skip(n)),
    decreases n,
{
    if n > 0 {
        assert(a[0] == a.take(n)[0] && b[0] == b.take(n)[0]);
        let a1 = a.drop_first();
        let b1 = b.drop_first();
        assert(a1.take(n - 1) =~= a.take(n).drop_first());
        assert(b1.take(n - 1) =~= b.take(n).drop_first());
        lemma_bytes_le_skip(a1, b1, n - 1);
        assert(a1.skip(n - 1) =~= a.skip(n));
        assert(b1.skip(n - 1) =~= b.skip(n));
    } else {
        assert(a.skip(0) =~= a);
        assert(b.skip(0) =~= b);
    }
}

/// Whether `a` comes before `b` in the order of texts, or is `b`.
pub fn text_in_order(a: &String, b: &String) -> (le: bool)
    ensures
        le == text_le(a@, b@),
{
    let x = a.as_str().as_bytes();
    let y = b.as_str().as_bytes();
    let mut i: usize = 0;
    assert(x@.take(0) =~= y@.take(0));
    while i < x.len() && i < y.len()
        invariant
            i <= x.len(),
            i <= y.len(),
            x@.take(i as int) == y@.take(i as int),
            x@ == encode_utf8(a@),
            y@ == encode_utf8(b@),
        decreases x.len() - i,
    {
        if x[i] != y[i] {
            proof {
                lemma_bytes_le_skip(x@, y@, i as int);
            }
            return x[i] < y[i];
        }
        assert(x@.take(i + 1) =~= x@.take(i as int).push(x@[i as int]));
        assert(y@.take(i + 1) =~= y@.take(i as int).push(y@[i as int]));
        i += 1;
    }
    proof {
        lemma_bytes_le_skip(x@, y@, i as int);
    }
    x.len() <= y.len()
}

/// The place at which a mark described by `desc` goes into `sorted`: behind
/// the last mark whose description does not come after `desc`.
pub open spec fn slot_by_desc(sorted: Seq<GlobalMarkView>, desc: Seq<char>) -> int
    decreases sorted.len(),
{
    if sorted.len() == 0 || text_le(sorted.last().desc, desc) {
        sorted.len() as int
    } else {
        slot_by_desc(sorted.drop_last(), desc)
    }
}

/// The marks in the order of their descriptions. Marks with one
/// description stay in the order in which they came.
pub open spec fn sorted_by_desc(marks: Seq<GlobalMarkView>) -> Seq<GlobalMarkView>
    decreases marks.len(),
{
    if marks.len() == 0 {
        Seq::empty()
    } else {
        let front = sorted_by_desc(marks.drop_last());
        front.insert(slot_by_desc(front, marks.last().desc), marks.last())
    }
}

/// Each mark's description comes before that of the next mark, or equals
/// it.
pub open spec fn in_desc_order(marks: Seq<GlobalMarkView>) -> bool {
    forall|i: int|
        0 <= i < marks.len() - 1 ==> text_le((#[trigger] marks[i]).desc, marks[i + 1].desc)
}

/// The place that `slot_by_desc` names lies in the sequence; the mark in
/// front of it does not come after `desc`, and all marks behind it do.
pub proof fn lemma_slot_by_desc(sorted: Seq<GlobalMarkView>, desc: Seq<char>)
    ensures
        0 <= slot_by_desc(sorted, desc) <= sorted.len(),
        slot_by_desc(sorted, desc) > 0 ==> text_le(
            sorted[slot_by_desc(sorted, desc) - 1].desc,
            desc,
        ),
        forall|j: int|
            slot_by_desc(sorted, desc) <= j < sorted.len() ==> !text_le(
                (#[trigger] sorted[j]).desc,
                desc,
            ),
    decreases sorted.len(),
{
    if !(sorted.len() == 0 || text_le(sorted.last().desc, desc)) {
        lemma_slot_by_desc(sorted.drop_last(), desc);
        let p = slot_by_desc(sorted.drop_last(), desc);
        assert forall|j: int| p <= j < sorted.len() implies !text_le(
            (#[trigger] sorted[j]).desc,
            desc,
        ) by {
            if j < sorted.len() - 1 {
                assert(sorted.drop_last()[j] == sorted[j]);
            }
        }
        if p > 0 {
            assert(sorted.drop_last()[p - 1] == sorted[p - 1]);
        }
    }
}

/// Sorting by description keeps every mark, as often as it occurs, and
/// puts the descriptions in order.
pub proof fn lemma_sorted_by_desc(marks: Seq<GlobalMarkView>)
    ensures
        sorted_by_desc(marks).len() == marks.len(),
        sorted_by_desc(marks).to_multiset() == marks.to_multiset(),
        in_desc_order(sorted_by_desc(marks)),
    decreases marks.len(),
{
    if marks.len() == 0 {
        assert(marks =~= Seq::<GlobalMarkView>::empty());
    } else {
        let front = sorted_by_desc(marks.drop_last());
        let mark = marks.last();
        let p = slot_by_desc(front, mark.desc);
        let all = front.insert(p, mark);
        lemma_sorted_by_desc(marks.drop_last());
        lemma_slot_by_desc(front, mark.desc);
        to_multiset_insert(front, p, mark);
        vstd::seq_lib::to_multiset_build(marks.drop_last(), mark);
        assert(marks.drop_last().push(mark) =~= marks);
        assert forall|i: int| 0 <= i < all.len() - 1 implies text_le(
            (#[trigger] all[i]).desc,
            all[i + 1].desc,
        ) by {
            if i + 1 < p {
                assert(all[i] == front[i] && all[i + 1] == front[i + 1]);
            } else if i + 1 == p {
                assert(all[i] == front[p - 1]);
            } else if i == p {
                assert(all[i + 1] == front[p]);
                lemma_bytes_le_total(encode_utf8(front[p].desc), encode_utf8(mark.desc));
            } else {
                assert(all[i] == front[i - 1] && all[i + 1] == front[i]);
            }
        }
    }
}

/// The marks in the order of their descriptions; marks with one
/// description stay in the order in which they came.
pub fn sort_by_desc(marks: Vec<GlobalMark>) -> (sorted: Vec<GlobalMark>)
    ensures
        sorted.deep_view() == sorted_by_desc(marks.deep_view()),
{
    let ghost all = marks.deep_view();
    let mut sorted: Vec<GlobalMark> = Vec::new();
    assert(all.take(0) =~= Seq::<GlobalMarkView>::empty());
    assert(sorted.deep_view() =~= Seq::<GlobalMarkView>::empty());
    for mark in it: marks
        invariant
            all == marks.deep_view(),
            it.seq() == marks@,
            sorted.deep_view() == sorted_by_desc(all.take(it.index() as int)),
    {
        let ghost i = it.index() as int;
        let ghost front = sorted.deep_view();
        proof {
            assert(all.take(i + 1).drop_last() =~= all.take(i));
        }
        let mut p: usize = sorted.len();
        assert(front.take(front.len() as int) =~= front);
        while p > 0 && !text_in_order(&sorted[p - 1].desc, &mark.desc)
            invariant
                p <= sorted.len(),
                front == sorted.deep_view(),
                slot_by_desc(front, mark@.desc) == slot_by_desc(front.take(p as int), mark@.desc),
            decreases p,
        {
            proof {
                assert(front.take(p as int).drop_last() =~= front.take(p - 1));
            }
            p -= 1;
        }
        assert(slot_by_desc(front.take(p as int), mark@.desc) == p);
        sorted.insert(p, mark);
        assert(sorted.deep_view() =~= front.insert(p as int, all[i]));
    }
    assert(all.take(marks.len() as int) =~= all);
    sorted
}

} // verus!
