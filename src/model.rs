//! The behaviour that both containers share, stated on sequences whose first
//! element is the one at the front (the top of a stack), and the laws it obeys.
use vstd::prelude::*;

verus! {

/// The contents after putting `x` at the front of `s`.
pub open spec fn pushed<T>(s: Seq<T>, x: T) -> Seq<T> {
    seq![x] + s
}

/// What taking the front element off `s` returns, and the contents after it:
/// nothing, with `s` unchanged, when `s` is empty.
pub open spec fn popped<T>(s: Seq<T>) -> (Option<T>, Seq<T>) {
    if s.len() == 0 {
        (None, s)
    } else {
        (Some(s[0]), s.drop_first())
    }
}

/// The front element of `s`, if any.
pub open spec fn front<T>(s: Seq<T>) -> Option<T> {
    if s.len() == 0 {
        None
    } else {
        Some(s[0])
    }
}

/// `views` records a run of pushes: the push of `xs[k]` turned `views[k]`
/// into `views[k + 1]`.
pub open spec fn push_run<T>(views: Seq<Seq<T>>, xs: Seq<T>) -> bool {
    &&& views.len() == xs.len() + 1
    &&& forall|k: int| 0 <= k < xs.len() ==> views[k + 1] == #[trigger] pushed(views[k], xs[k])
}

/// `views` and `results` record a run of pops: pop `k` turned `views[k]` into
/// `views[k + 1]` and returned `results[k]`.
pub open spec fn pop_run<T>(views: Seq<Seq<T>>, results: Seq<Option<T>>) -> bool {
    &&& views.len() == results.len() + 1
    &&& forall|k: int|
        0 <= k < results.len() ==> (results[k], views[k + 1]) == #[trigger] popped(views[k])
}

proof fn lemma_push_run_prepends<T>(views: Seq<Seq<T>>, xs: Seq<T>, i: int)
    requires
        push_run(views, xs),
        0 <= i <= xs.len(),
    ensures
        views[i] == xs.take(i).reverse() + views[0],
    decreases i,
{
    if i > 0 {
        lemma_push_run_prepends(views, xs, i - 1);
        assert(views[i] == pushed(views[i - 1], xs[i - 1]));
        assert(xs.take(i).reverse() =~= seq![xs[i - 1]] + xs.take(i - 1).reverse());
        assert(views[i] =~= xs.take(i).reverse() + views[0]);
    } else {
        assert(xs.take(0).reverse() + views[0] =~= views[0]);
    }
}

proof fn lemma_pop_run_drops<T>(views: Seq<Seq<T>>, results: Seq<Option<T>>, i: int)
    requires
        pop_run(views, results),
        0 <= i <= results.len(),
        i <= views[0].len(),
    ensures
        views[i] == views[0].skip(i),
        forall|k: int| 0 <= k < i ==> results[k] == Some(#[trigger] views[0][k]),
    decreases i,
{
    if i > 0 {
        lemma_pop_run_drops(views, results, i - 1);
        assert(popped(views[i - 1]) == (results[i - 1], views[i]));
        assert(views[i] =~= views[0].skip(i));
    } else {
        assert(views[0].skip(0) =~= views[0]);
    }
}

/// From any contents, pushing the elements of `xs` one call at a time and
/// then popping as many times returns them in reverse order of their pushes,
/// and leaves the contents as they were before the pushes.
pub proof fn lemma_lifo<T>(
    pushes: Seq<Seq<T>>,
    xs: Seq<T>,
    pops: Seq<Seq<T>>,
    results: Seq<Option<T>>,
)
    requires
        push_run(pushes, xs),
        pop_run(pops, results),
        pops[0] == pushes.last(),
        results.len() == xs.len(),
    ensures
        forall|j: int| 0 <= j < xs.len() ==> results[j] == Some(#[trigger] xs[xs.len() - 1 - j]),
        pops.last() == pushes[0],
{
    let k = xs.len() as int;
    lemma_push_run_prepends(pushes, xs, k);
    assert(xs.take(k) =~= xs);
    lemma_pop_run_drops(pops, results, k);
    assert(pops[k] =~= pushes[0]);
    assert forall|j: int| 0 <= j < xs.len() implies results[j] == Some(
        #[trigger] xs[xs.len() - 1 - j],
    ) by {
        assert(results[j] == Some(pops[0][j]));
    }
}

/// Popping empty contents any number of times in a row returns nothing each
/// time and leaves them empty after each call.
pub proof fn lemma_pop_empty<T>(views: Seq<Seq<T>>, results: Seq<Option<T>>)
    requires
        pop_run(views, results),
        views[0].len() == 0,
    ensures
        forall|k: int| 0 <= k < results.len() ==> (#[trigger] results[k]) is None,
        forall|k: int| 0 <= k < views.len() ==> (#[trigger] views[k]).len() == 0,
{
    assert forall|k: int| 0 <= k < views.len() implies (#[trigger] views[k]).len() == 0 by {
        lemma_pop_empty_upto(views, results, k);
    }
    assert forall|k: int| 0 <= k < results.len() implies (#[trigger] results[k]) is None by {
        lemma_pop_empty_upto(views, results, k);
        assert(popped(views[k]) == (results[k], views[k + 1]));
    }
}

proof fn lemma_pop_empty_upto<T>(views: Seq<Seq<T>>, results: Seq<Option<T>>, i: int)
    requires
        pop_run(views, results),
        views[0].len() == 0,
        0 <= i < views.len(),
    ensures
        views[i].len() == 0,
    decreases i,
{
    if i > 0 {
        lemma_pop_empty_upto(views, results, i - 1);
        assert(popped(views[i - 1]) == (results[i - 1], views[i]));
    }
}

/// From contents of `n` elements, of `n + 1` pops in a row the first `n` each
/// return a value (the elements, front first) and the last returns nothing.
pub proof fn lemma_exactly_len_pops<T>(views: Seq<Seq<T>>, results: Seq<Option<T>>)
    requires
        pop_run(views, results),
        results.len() == views[0].len() + 1,
    ensures
        forall|k: int| 0 <= k < views[0].len() ==> results[k] == Some(#[trigger] views[0][k]),
        results.last() is None,
{
    let n = views[0].len() as int;
    lemma_pop_run_drops(views, results, n);
    assert(popped(views[n]) == (results[n], views[n + 1]));
}

/// After a push the front element is the value just pushed, and it is what
/// the next pop would return; looking at the front changes nothing, so two
/// looks with no change between them agree.
pub proof fn lemma_front_after_push<T>(s: Seq<T>, x: T)
    ensures
        front(pushed(s, x)) == Some(x),
        popped(pushed(s, x)).0 == front(pushed(s, x)),
        popped(s).0 == front(s),
{
}

} // verus!
