//! Facts about filtering, mapping and concatenating sequences that the laws of
//! the grid index are proved from.

use vstd::prelude::*;

verus! {

/// A filter that every element passes changes nothing.
pub proof fn lemma_filter_all<A>(s: Seq<A>, pred: spec_fn(A) -> bool)
    requires
        forall|i: int| 0 <= i < s.len() ==> pred(#[trigger] s[i]),
    ensures
        s.filter(pred) == s,
    decreases s.len(),
{
    reveal(Seq::filter);
    if s.len() > 0 {
        lemma_filter_all(s.drop_last(), pred);
        assert(s.drop_last().push(s.last()) =~= s);
    }
}

/// A filter that the first `count` elements pass keeps them in front.
pub proof fn lemma_filter_keeps_front<A>(s: Seq<A>, pred: spec_fn(A) -> bool, count: int)
    requires
        0 <= count <= s.len(),
        forall|i: int| 0 <= i < count ==> pred(#[trigger] s[i]),
    ensures
        s.filter(pred).len() >= count,
        s.filter(pred).take(count) == s.take(count),
{
    let front = s.take(count);
    let back = s.skip(count);
    assert(front + back =~= s);
    Seq::filter_distributes_over_add(front, back, pred);
    lemma_filter_all(front, pred);
    assert((front + back.filter(pred)).take(count) =~= front);
}

/// An element is in a flattened map exactly if it is in the image of one of
/// the mapped elements.
pub proof fn lemma_flat_map_contains<A, B>(s: Seq<A>, f: spec_fn(A) -> Seq<B>, x: B)
    ensures
        s.flat_map(f).contains(x) <==> exists|i: int| 0 <= i < s.len() && #[trigger] f(s[i]).contains(x),
    decreases s.len(),
{
    if s.len() == 0 {
        assert(s.flat_map(f) =~= Seq::<B>::empty());
    } else {
        let front = s.drop_last();
        let last = s.last();
        assert(front.push(last) =~= s);
        front.lemma_flat_map_push(f, last);
        lemma_flat_map_contains(front, f, x);
        let joined = front.flat_map(f) + f(last);
        if joined.contains(x) {
            let j = choose|j: int| 0 <= j < joined.len() && joined[j] == x;
            if j < front.flat_map(f).len() {
                assert(front.flat_map(f)[j] == x);
                let i = choose|i: int| 0 <= i < front.len() && #[trigger] f(front[i]).contains(x);
                assert(f(s[i]).contains(x));
            } else {
                let image = f(last);
                assert(image[j - front.flat_map(f).len()] == x);
                assert(f(s[s.len() - 1]).contains(x));
            }
        }
        if exists|i: int| 0 <= i < s.len() && #[trigger] f(s[i]).contains(x) {
            let i = choose|i: int| 0 <= i < s.len() && #[trigger] f(s[i]).contains(x);
            if i < front.len() {
                assert(f(front[i]).contains(x));
                let j = choose|j: int|
                    0 <= j < front.flat_map(f).len() && front.flat_map(f)[j] == x;
                assert(joined[j] == x);
            } else {
                let image = f(last);
                assert(image.contains(x));
                let j = choose|j: int| 0 <= j < image.len() && image[j] == x;
                assert(joined[front.flat_map(f).len() + j] == x);
            }
        }
    }
}

/// Filtering and then mapping each image commutes with flattening.
pub proof fn lemma_flat_map_filter_map<A, B>(
    s: Seq<A>,
    f: spec_fn(A) -> Seq<B>,
    g: spec_fn(A) -> Seq<B>,
    pred: spec_fn(B) -> bool,
    rename: spec_fn(B) -> B,
)
    requires
        forall|i: int|
            0 <= i < s.len() ==> #[trigger] g(s[i]) == f(s[i]).filter(pred).map_values(rename),
    ensures
        s.flat_map(g) == s.flat_map(f).filter(pred).map_values(rename),
    decreases s.len(),
{
    if s.len() == 0 {
        assert(s.flat_map(g) =~= Seq::<B>::empty());
        assert(s.flat_map(f) =~= Seq::<B>::empty());
        lemma_filter_all(s.flat_map(f), pred);
    } else {
        let front = s.drop_last();
        let last = s.last();
        assert(front.push(last) =~= s);
        assert forall|i: int| 0 <= i < front.len() implies #[trigger] g(front[i]) == f(
            front[i],
        ).filter(pred).map_values(rename) by {
            assert(front[i] == s[i]);
        }
        lemma_flat_map_filter_map(front, f, g, pred, rename);
        front.lemma_flat_map_push(f, last);
        front.lemma_flat_map_push(g, last);
        assert(g(s[s.len() - 1]) == f(last).filter(pred).map_values(rename));
        Seq::filter_distributes_over_add(front.flat_map(f), f(last), pred);
        assert((front.flat_map(f).filter(pred) + f(last).filter(pred)).map_values(rename)
            =~= front.flat_map(f).filter(pred).map_values(rename) + f(last).filter(
            pred,
        ).map_values(rename));
    }
}

/// A flattened map holds no element twice if no image does and no element is
/// in two images.
pub proof fn lemma_flat_map_no_duplicates<A, B>(s: Seq<A>, f: spec_fn(A) -> Seq<B>)
    requires
        forall|i: int| 0 <= i < s.len() ==> (#[trigger] f(s[i])).no_duplicates(),
        forall|i: int, j: int, x: B|
            #![trigger f(s[i]).contains(x), f(s[j]).contains(x)]
            0 <= i < j < s.len() && f(s[i]).contains(x) ==> !f(s[j]).contains(x),
    ensures
        s.flat_map(f).no_duplicates(),
    decreases s.len(),
{
    if s.len() == 0 {
        assert(s.flat_map(f) =~= Seq::<B>::empty());
    } else {
        let front = s.drop_last();
        let last = s.last();
        assert(front.push(last) =~= s);
        assert forall|i: int| 0 <= i < front.len() implies (#[trigger] f(
            front[i],
        )).no_duplicates() by {
            assert(front[i] == s[i]);
        }
        assert forall|i: int, j: int, x: B|
            #![trigger f(front[i]).contains(x), f(front[j]).contains(x)]
            0 <= i < j < front.len() && f(front[i]).contains(x) implies !f(front[j]).contains(
            x,
        ) by {
            assert(front[i] == s[i] && front[j] == s[j]);
        }
        lemma_flat_map_no_duplicates(front, f);
        front.lemma_flat_map_push(f, last);
        let before = front.flat_map(f);
        let image = f(last);
        assert(image == f(s[s.len() - 1]));
        assert forall|a: int, b: int| 0 <= a < before.len() && 0 <= b < image.len() implies
            before[a] != image[b] by {
            lemma_flat_map_contains(front, f, before[a]);
            assert(before.contains(before[a]));
            let i = choose|i: int| 0 <= i < front.len() && #[trigger] f(front[i]).contains(before[a]);
            assert(front[i] == s[i]);
            assert(f(s[i]).contains(before[a]));
            if before[a] == image[b] {
                assert(image.contains(before[a]));
                assert(f(s[s.len() - 1]).contains(before[a]));
            }
        }
        vstd::seq_lib::lemma_no_dup_in_concat(before, image);
    }
}

} // verus!
