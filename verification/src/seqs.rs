//! Facts about sequences that the rest of the library states its contracts over.
use vstd::prelude::*;

verus! {

/// The first index at which `p` holds, or the length of `s` when it holds nowhere.
pub open spec fn first_where<A>(s: Seq<A>, p: spec_fn(A) -> bool) -> int
    decreases s.len(),
{
    if s.len() == 0 || p(s[0]) {
        0
    } else {
        1 + first_where(s.drop_first(), p)
    }
}

/// The last index at which `p` holds, or `-1` when it holds nowhere.
pub open spec fn last_where<A>(s: Seq<A>, p: spec_fn(A) -> bool) -> int
    decreases s.len(),
{
    if s.len() == 0 || p(s.last()) {
        s.len() - 1
    } else {
        last_where(s.drop_last(), p)
    }
}

/// An index that nothing earlier satisfies, and that either satisfies `p` or ends the
/// sequence, is the first one.
pub proof fn lemma_first_where<A>(s: Seq<A>, p: spec_fn(A) -> bool, k: int)
    requires
        0 <= k <= s.len(),
        forall|j: int| 0 <= j < k ==> !p(#[trigger] s[j]),
        k < s.len() ==> p(s[k]),
    ensures
        first_where(s, p) == k,
    decreases s.len(),
{
    if s.len() > 0 && k > 0 {
        let rest = s.drop_first();
        assert(!p(s[0]));
        assert forall|j: int| 0 <= j < k - 1 implies !p(#[trigger] rest[j]) by {
            assert(rest[j] == s[j + 1]);
        }
        lemma_first_where(rest, p, k - 1);
    }
}

/// What [`first_where`] returns is such an index.
pub proof fn lemma_first_where_is<A>(s: Seq<A>, p: spec_fn(A) -> bool)
    ensures
        0 <= first_where(s, p) <= s.len(),
        forall|j: int| 0 <= j < first_where(s, p) ==> !p(#[trigger] s[j]),
        first_where(s, p) < s.len() ==> p(s[first_where(s, p)]),
    decreases s.len(),
{
    if s.len() > 0 && !p(s[0]) {
        let rest = s.drop_first();
        lemma_first_where_is(rest, p);
        assert forall|j: int| 0 <= j < first_where(s, p) implies !p(#[trigger] s[j]) by {
            if j > 0 {
                assert(s[j] == rest[j - 1]);
            }
        }
    }
}

/// An index that nothing later satisfies, and that either satisfies `p` or precedes the
/// sequence, is the last one.
pub proof fn lemma_last_where<A>(s: Seq<A>, p: spec_fn(A) -> bool, k: int)
    requires
        -1 <= k < s.len(),
        forall|j: int| k < j < s.len() ==> !p(#[trigger] s[j]),
        k >= 0 ==> p(s[k]),
    ensures
        last_where(s, p) == k,
    decreases s.len(),
{
    if s.len() > 0 && k < s.len() - 1 {
        let front = s.drop_last();
        assert(!p(s[s.len() - 1]));
        assert forall|j: int| k < j < front.len() implies !p(#[trigger] front[j]) by {
            assert(front[j] == s[j]);
        }
        lemma_last_where(front, p, k);
    }
}

/// What [`last_where`] returns is such an index.
pub proof fn lemma_last_where_is<A>(s: Seq<A>, p: spec_fn(A) -> bool)
    ensures
        -1 <= last_where(s, p) < s.len(),
        forall|j: int| last_where(s, p) < j < s.len() ==> !p(#[trigger] s[j]),
        last_where(s, p) >= 0 ==> p(s[last_where(s, p)]),
    decreases s.len(),
{
    if s.len() > 0 && !p(s.last()) {
        let front = s.drop_last();
        lemma_last_where_is(front, p);
        assert forall|j: int| last_where(s, p) < j < s.len() implies !p(#[trigger] s[j]) by {
            if j < s.len() - 1 {
                assert(s[j] == front[j]);
            }
        }
    }
}

/// Whether `needle` stands in `hay` at index `at`.
pub open spec fn occurs_at<A>(hay: Seq<A>, needle: Seq<A>, at: int) -> bool {
    &&& 0 <= at
    &&& at + needle.len() <= hay.len()
    &&& hay.subrange(at, at + needle.len()) == needle
}

/// Whether `needle` stands anywhere in `hay`.
pub open spec fn occurs<A>(hay: Seq<A>, needle: Seq<A>) -> bool {
    exists|at: int| #[trigger] occurs_at(hay, needle, at)
}

/// The first index at or after `from` at which `needle` stands in `hay`, or the length of
/// `hay` plus one when there is none.
pub open spec fn occurrence_from<A>(hay: Seq<A>, needle: Seq<A>, from: int) -> int
    decreases hay.len() + 1 - from,
{
    if from > hay.len() {
        (hay.len() + 1) as int
    } else if occurs_at(hay, needle, from) {
        from
    } else {
        occurrence_from(hay, needle, from + 1)
    }
}

/// Positions that do not hold `needle` can be skipped.
pub proof fn lemma_occurrence_skip<A>(hay: Seq<A>, needle: Seq<A>, from: int, to: int)
    requires
        from <= to,
        forall|j: int| from <= j < to ==> !#[trigger] occurs_at(hay, needle, j),
    ensures
        to <= hay.len() ==> occurrence_from(hay, needle, from) == occurrence_from(hay, needle, to),
        to > hay.len() ==> occurrence_from(hay, needle, from) == hay.len() + 1,
    decreases to - from,
{
    if from < to && from <= hay.len() {
        assert(!occurs_at(hay, needle, from));
        lemma_occurrence_skip(hay, needle, from + 1, to);
    }
}

/// The elements of `s` that stand where `keep` is set, in order.
pub open spec fn kept<A>(s: Seq<A>, keep: Seq<bool>) -> Seq<A>
    decreases s.len(),
{
    if s.len() == 0 || keep.len() == 0 {
        Seq::empty()
    } else {
        let rest = kept(s.drop_last(), keep.drop_last());
        if keep.last() {
            rest.push(s.last())
        } else {
            rest
        }
    }
}

/// Selecting by the marks of a predicate is filtering by it.
pub proof fn lemma_kept_filter<A>(s: Seq<A>, keep: Seq<bool>, p: spec_fn(A) -> bool)
    requires
        keep.len() == s.len(),
        forall|i: int| 0 <= i < s.len() ==> keep[i] == p(#[trigger] s[i]),
    ensures
        kept(s, keep) == s.filter(p),
    decreases s.len(),
{
    reveal(Seq::filter);
    if s.len() > 0 {
        lemma_kept_filter(s.drop_last(), keep.drop_last(), p);
    }
}

/// The results of `f` for the first `n` indices, or the first failure among them.
pub open spec fn collect<A, E>(n: int, f: spec_fn(int) -> Result<A, E>) -> Result<Seq<A>, E>
    decreases n,
{
    if n <= 0 {
        Ok(Seq::empty())
    } else {
        match collect(n - 1, f) {
            Ok(front) => match f(n - 1) {
                Ok(last) => Ok(front.push(last)),
                Err(error) => Err(error),
            },
            Err(error) => Err(error),
        }
    }
}

/// The first failure decides.
pub proof fn lemma_collect_fails<A, E>(n: int, k: int, f: spec_fn(int) -> Result<A, E>)
    requires
        0 <= k < n,
        collect(k, f) is Ok,
        f(k) is Err,
    ensures
        collect(n, f) == Err::<Seq<A>, E>(f(k)->Err_0),
    decreases n,
{
    if k < n - 1 {
        lemma_collect_fails(n - 1, k, f);
    }
}

/// Success means that every call succeeded, and gives their results in order.
pub proof fn lemma_collect_succeeds<A, E>(n: int, f: spec_fn(int) -> Result<A, E>)
    requires
        0 <= n,
        collect(n, f) is Ok,
    ensures
        collect(n, f)->Ok_0.len() == n,
        forall|i: int|
            0 <= i < n ==> f(i) == Ok::<A, E>(#[trigger] collect(n, f)->Ok_0[i]),
    decreases n,
{
    if n > 0 {
        lemma_collect_succeeds(n - 1, f);
    }
}

/// When every call succeeds with the given results, those are collected.
pub proof fn lemma_collect_all<A, E>(n: int, f: spec_fn(int) -> Result<A, E>, all: Seq<A>)
    requires
        0 <= n == all.len(),
        forall|i: int| 0 <= i < n ==> f(i) == Ok::<A, E>(#[trigger] all[i]),
    ensures
        collect(n, f) == Ok::<Seq<A>, E>(all),
    decreases n,
{
    if n > 0 {
        lemma_collect_all(n - 1, f, all.drop_last());
        assert(f(n - 1) == Ok::<A, E>(all[n - 1]));
        assert(all.drop_last().push(all.last()) =~= all);
    } else {
        assert(all =~= Seq::empty());
    }
}

/// The elements of all parts, one part behind the other.
pub open spec fn joined<A>(parts: Seq<Seq<A>>) -> Seq<A>
    decreases parts.len(),
{
    if parts.len() == 0 {
        Seq::empty()
    } else {
        joined(parts.drop_last()) + parts.last()
    }
}

/// What one part has, all parts together have.
pub proof fn lemma_joined_has<A>(parts: Seq<Seq<A>>, k: int, i: int)
    requires
        0 <= k < parts.len(),
        0 <= i < parts[k].len(),
    ensures
        joined(parts).contains(parts[k][i]),
    decreases parts.len(),
{
    let front = joined(parts.drop_last());
    let last = parts.last();
    if k == parts.len() - 1 {
        assert(joined(parts)[front.len() + i] == last[i]);
    } else {
        lemma_joined_has(parts.drop_last(), k, i);
        assert(parts.drop_last()[k] == parts[k]);
        let at = choose|at: int| 0 <= at < front.len() && front[at] == parts[k][i];
        assert(joined(parts)[at] == front[at]);
    }
}

/// What all parts have together, one of them has.
pub proof fn lemma_joined_comes_from<A>(parts: Seq<Seq<A>>, at: int)
    requires
        0 <= at < joined(parts).len(),
    ensures
        exists|k: int|
            0 <= k < parts.len() && (#[trigger] parts[k]).contains(joined(parts)[at]),
    decreases parts.len(),
{
    let front = joined(parts.drop_last());
    if at < front.len() {
        lemma_joined_comes_from(parts.drop_last(), at);
        let k = choose|k: int|
            0 <= k < parts.drop_last().len() && (#[trigger] parts.drop_last()[k]).contains(front[at]);
        assert(parts[k] == parts.drop_last()[k]);
        assert(parts[k].contains(joined(parts)[at]));
    } else {
        let last = parts.len() - 1;
        assert(parts[last][at - front.len()] == joined(parts)[at]);
        assert(parts[last].contains(joined(parts)[at]));
    }
}

/// Where one thing stands behind another, each of them stands at its place.
pub proof fn lemma_both_occur<A>(hay: Seq<A>, one: Seq<A>, other: Seq<A>, at: int)
    requires
        occurs_at(hay, one + other, at),
    ensures
        occurs_at(hay, one, at),
        occurs_at(hay, other, at + one.len()),
{
    let both = one + other;
    let part = hay.subrange(at, at + both.len());
    assert(hay.subrange(at, at + one.len()) =~= one) by {
        assert forall|j: int| 0 <= j < one.len() implies hay[at + j] == one[j] by {
            assert(part[j] == both[j]);
        }
    }
    let start = at + one.len();
    assert(hay.subrange(start, start + other.len()) =~= other) by {
        assert forall|j: int| 0 <= j < other.len() implies hay[start + j] == other[j] by {
            assert(part[one.len() + j] == both[one.len() + j]);
        }
    }
}

/// The occurrence that is found is the first from where the search starts, and there is none only
/// where nothing occurs from there on.
pub proof fn law_the_first_occurrence_is_found<A>(hay: Seq<A>, needle: Seq<A>, from: int)
    requires
        0 <= from,
    ensures
        occurrence_from(hay, needle, from) <= hay.len() ==> from <= occurrence_from(hay, needle, from)
            && occurs_at(hay, needle, occurrence_from(hay, needle, from)),
        forall|j: int|
            from <= j < occurrence_from(hay, needle, from) && j <= hay.len() ==> !#[trigger] occurs_at(
                hay,
                needle,
                j,
            ),
    decreases hay.len() + 1 - from,
{
    if from <= hay.len() && !occurs_at(hay, needle, from) {
        law_the_first_occurrence_is_found(hay, needle, from + 1);
    }
}

} // verus!
