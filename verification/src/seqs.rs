use vstd::prelude::*;

verus! {

/// A filter keeps a sequence whose elements all pass.
pub proof fn lemma_filter_keeps_all<T>(s: Seq<T>, pred: spec_fn(T) -> bool)
    requires
        forall|i: int| 0 <= i < s.len() ==> pred(#[trigger] s[i]),
    ensures
        s.filter(pred) == s,
    decreases s.len(),
{
    reveal(Seq::filter);
    if s.len() > 0 {
        lemma_filter_keeps_all(s.drop_last(), pred);
        assert(s.drop_last().push(s.last()) =~= s);
    }
}

/// A filter empties a sequence of which no element passes.
pub proof fn lemma_filter_drops_all<T>(s: Seq<T>, pred: spec_fn(T) -> bool)
    requires
        forall|i: int| 0 <= i < s.len() ==> !pred(#[trigger] s[i]),
    ensures
        s.filter(pred) == Seq::<T>::empty(),
    decreases s.len(),
{
    reveal(Seq::filter);
    if s.len() > 0 {
        lemma_filter_drops_all(s.drop_last(), pred);
    }
}

/// A filter keeps the length exactly when every element passes.
pub proof fn lemma_filter_full_length<T>(s: Seq<T>, pred: spec_fn(T) -> bool)
    ensures
        s.filter(pred).len() <= s.len(),
        s.filter(pred).len() == s.len() <==> forall|i: int|
            0 <= i < s.len() ==> pred(#[trigger] s[i]),
    decreases s.len(),
{
    reveal(Seq::filter);
    if s.len() > 0 {
        let front = s.drop_last();
        lemma_filter_full_length(front, pred);
        if forall|i: int| 0 <= i < s.len() ==> pred(#[trigger] s[i]) {
            assert forall|i: int| 0 <= i < front.len() implies pred(#[trigger] front[i]) by {
                assert(front[i] == s[i]);
            }
        }
        if s.filter(pred).len() == s.len() {
            assert forall|i: int| 0 <= i < s.len() implies pred(#[trigger] s[i]) by {
                if i < front.len() {
                    assert(front[i] == s[i]);
                }
            }
        }
    }
}

/// Every element that a filter lets through passes and comes from the
/// sequence, and every element of the sequence that passes is let through.
pub proof fn lemma_filter_members<T>(s: Seq<T>, pred: spec_fn(T) -> bool)
    ensures
        forall|x: T| #[trigger] s.filter(pred).contains(x) <==> s.contains(x) && pred(x),
    decreases s.len(),
{
    reveal(Seq::filter);
    let out = s.filter(pred);
    if s.len() > 0 {
        let front = s.drop_last();
        let kept = front.filter(pred);
        lemma_filter_members(front, pred);
        assert forall|x: T| #[trigger] out.contains(x) <==> s.contains(x) && pred(x) by {
            assert(kept.contains(x) <==> front.contains(x) && pred(x));
            if out.contains(x) {
                let j = choose|j: int| 0 <= j < out.len() && out[j] == x;
                if j < kept.len() {
                    assert(kept[j] == x);
                    assert(kept.contains(x));
                    let i = choose|i: int| 0 <= i < front.len() && front[i] == x;
                    assert(s[i] == x);
                } else {
                    assert(s[s.len() - 1] == x);
                }
            }
            if s.contains(x) && pred(x) {
                let i = choose|i: int| 0 <= i < s.len() && s[i] == x;
                if i < front.len() {
                    assert(front[i] == x);
                    assert(front.contains(x));
                    assert(kept.contains(x));
                    let j = choose|j: int| 0 <= j < kept.len() && kept[j] == x;
                    assert(out[j] == x);
                } else {
                    assert(out[out.len() - 1] == x);
                }
            }
        }
    }
}

/// A filter of a sequence without repetition has no repetition.
pub proof fn lemma_filter_distinct<T>(s: Seq<T>, pred: spec_fn(T) -> bool)
    requires
        s.no_duplicates(),
    ensures
        s.filter(pred).no_duplicates(),
    decreases s.len(),
{
    reveal(Seq::filter);
    if s.len() > 0 {
        let front = s.drop_last();
        lemma_filter_distinct(front, pred);
        lemma_filter_members(front, pred);
        if front.contains(s.last()) {
            let i = choose|i: int| 0 <= i < front.len() && front[i] == s.last();
            assert(s[i] == s[s.len() - 1]);
        }
        let kept = front.filter(pred);
        assert forall|i: int, j: int|
            0 <= i < kept.len() && 0 <= j < kept.len() + 1 && i != j implies kept.push(s.last())[i]
            != kept.push(s.last())[j] by {
            assert(kept.contains(kept[i]));
            if j < kept.len() {
                assert(kept.contains(kept[j]));
            }
        }
    }
}

/// A filter of a sequence of which no two elements are alike has no two
/// elements that are alike.
pub proof fn lemma_filter_distinct_by<T>(
    s: Seq<T>,
    pred: spec_fn(T) -> bool,
    alike: spec_fn(T, T) -> bool,
)
    requires
        forall|i: int, j: int|
            0 <= i < s.len() && 0 <= j < s.len() && i != j ==> !#[trigger] alike(s[i], s[j]),
    ensures
        forall|i: int, j: int|
            0 <= i < s.filter(pred).len() && 0 <= j < s.filter(pred).len() && i != j
                ==> !#[trigger] alike(s.filter(pred)[i], s.filter(pred)[j]),
    decreases s.len(),
{
    reveal(Seq::filter);
    if s.len() > 0 {
        let front = s.drop_last();
        let kept = front.filter(pred);
        assert forall|i: int, j: int|
            0 <= i < front.len() && 0 <= j < front.len() && i != j implies !#[trigger] alike(
            front[i],
            front[j],
        ) by {
            assert(!alike(s[i], s[j]));
        }
        lemma_filter_distinct_by(front, pred, alike);
        lemma_filter_members(front, pred);
        let out = s.filter(pred);
        let n = s.len() - 1;
        assert forall|i: int, j: int|
            0 <= i < out.len() && 0 <= j < out.len() && i != j implies !#[trigger] alike(
            out[i],
            out[j],
        ) by {
            if i < kept.len() && j < kept.len() {
                assert(!alike(kept[i], kept[j]));
            } else {
                let a = if i < kept.len() { i } else { j };
                assert(kept.contains(kept[a]));
                let b = choose|b: int| 0 <= b < front.len() && front[b] == kept[a];
                assert(!alike(s[b], s[n]) && !alike(s[n], s[b]));
            }
        }
    }
}

/// Where the first `m` elements pass, a filter keeps them as they are.
pub proof fn lemma_filter_prefix<T>(s: Seq<T>, pred: spec_fn(T) -> bool, m: int)
    requires
        0 <= m <= s.len(),
        forall|i: int| 0 <= i < m ==> pred(#[trigger] s[i]),
    ensures
        s.filter(pred) == s.take(m) + s.skip(m).filter(pred),
{
    assert(s =~= s.take(m) + s.skip(m));
    Seq::filter_distributes_over_add(s.take(m), s.skip(m), pred);
    lemma_filter_keeps_all(s.take(m), pred);
}

} // verus!
