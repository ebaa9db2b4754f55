//! Stable ranking: a list put in order, with items of equal rank left as they came.

use vstd::prelude::*;

verus! {

/// A way `O` of ranking items: a total preorder.
pub trait RankBy<O>: Sized {
    /// Whether an item may stand before another that came later.
    spec fn may_precede(self, other: Self) -> bool;

    proof fn total(a: Self, b: Self)
        ensures
            a.may_precede(b) || b.may_precede(a),
    ;

    proof fn transitive(a: Self, b: Self, c: Self)
        requires
            a.may_precede(b),
            b.may_precede(c),
        ensures
            a.may_precede(c),
    ;

    fn precedes(&self, other: &Self) -> (res: bool)
        ensures
            res == self.may_precede(*other),
    ;
}

/// At most the first `n` items of `s`.
pub open spec fn first_n<T>(s: Seq<T>, n: nat) -> Seq<T> {
    if s.len() <= n {
        s
    } else {
        s.take(n as int)
    }
}

/// Cuts a list to at most `n` items.
pub fn cut<T>(items: Vec<T>, n: usize) -> (res: Vec<T>)
    ensures
        res@ == first_n(items@, n as nat),
{
    let mut items = items;
    let ghost all = items@;
    if items.len() > n {
        items.truncate(n);
        assert(items@ =~= all.take(n as int));
    }
    items
}

/// A list back to front.
pub fn reversed<T>(items: Vec<T>) -> (res: Vec<T>)
    ensures
        res@ == items@.reverse(),
{
    let mut items = items;
    let mut res: Vec<T> = Vec::new();
    let ghost all = items@;
    while items.len() > 0
        invariant
            items@ == all.take(items@.len() as int),
            items@.len() + res@.len() == all.len(),
            res@ == all.skip(items@.len() as int).reverse(),
        decreases items@.len(),
    {
        let ghost n = items@.len() as int;
        if let Some(x) = items.pop() {
            res.push(x);
            assert(items@ =~= all.take(n - 1));
            assert(res@ =~= all.skip(n - 1).reverse());
        }
    }
    assert(all.skip(0) =~= all);
    res
}

/// `s` with `x` put behind the last item that may precede it.
pub open spec fn place<O, T: RankBy<O>>(s: Seq<T>, x: T) -> Seq<T>
    decreases s.len(),
{
    if s.len() == 0 || s.last().may_precede(x) {
        s.push(x)
    } else {
        place::<O, T>(s.drop_last(), x).push(s.last())
    }
}

/// `s` in rank order.
pub open spec fn ranked<O, T: RankBy<O>>(s: Seq<T>) -> Seq<T>
    decreases s.len(),
{
    if s.len() == 0 {
        s
    } else {
        place::<O, T>(ranked::<O, T>(s.drop_last()), s.last())
    }
}

/// Whether every item may precede all that stand behind it.
pub open spec fn is_ranked<O, T: RankBy<O>>(s: Seq<T>) -> bool {
    forall|i: int, j: int| 0 <= i < j < s.len() ==> #[trigger] s[i].may_precede(#[trigger] s[j])
}

proof fn lemma_place<O, T: RankBy<O>>(s: Seq<T>, x: T, pos: int)
    requires
        0 <= pos <= s.len(),
        pos == 0 || s[pos - 1].may_precede(x),
        forall|j: int| pos <= j < s.len() ==> !(#[trigger] s[j]).may_precede(x),
    ensures
        place::<O, T>(s, x) == s.insert(pos, x),
    decreases s.len(),
{
    if pos == s.len() {
        assert(s.insert(pos, x) =~= s.push(x));
    } else {
        let front = s.drop_last();
        lemma_place::<O, T>(front, x, pos);
        assert(front.insert(pos, x).push(s.last()) =~= s.insert(pos, x));
    }
}

/// Puts a list in rank order.
pub fn rank<O, T: RankBy<O>>(items: Vec<T>) -> (res: Vec<T>)
    ensures
        res@ == ranked::<O, T>(items@),
{
    let mut res: Vec<T> = Vec::new();
    let ghost all = items@;
    for x in it: items
        invariant
            it.seq() == all,
            res@ == ranked::<O, T>(all.take(it.index() as int)),
    {
        let ghost before = res@;
        let ghost n = it.index() as int;
        let mut pos: usize = res.len();
        while pos > 0 && !res[pos - 1].precedes(&x)
            invariant
                pos <= res.len(),
                res@ == before,
                forall|j: int| pos <= j < res.len() ==> !(#[trigger] res@[j]).may_precede(x),
            decreases pos,
        {
            pos = pos - 1;
        }
        proof {
            lemma_place::<O, T>(before, x, pos as int);
            assert(all.take(n + 1).drop_last() =~= all.take(n));
        }
        res.insert(pos, x);
    }
    assert(all.take(all.len() as int) =~= all);
    res
}

proof fn lemma_place_keeps<O, T: RankBy<O>>(s: Seq<T>, x: T)
    requires
        is_ranked::<O, T>(s),
    ensures
        is_ranked::<O, T>(place::<O, T>(s, x)),
        place::<O, T>(s, x).to_multiset() == s.to_multiset().insert(x),
        forall|k: int|
            0 <= k < place::<O, T>(s, x).len() ==> (#[trigger] place::<O, T>(s, x)[k] == x
                || s.contains(place::<O, T>(s, x)[k])),
    decreases s.len(),
{
    broadcast use vstd::seq_lib::group_to_multiset_ensures;

    let r = place::<O, T>(s, x);
    if s.len() == 0 || s.last().may_precede(x) {
        assert forall|i: int, j: int| 0 <= i < j < r.len() implies #[trigger] r[i].may_precede(
            #[trigger] r[j],
        ) by {
            if j == s.len() && i < s.len() - 1 {
                T::transitive(s[i], s.last(), x);
            }
        }
        assert forall|k: int| 0 <= k < r.len() implies (#[trigger] r[k] == x || s.contains(
            r[k],
        )) by {
            if k < s.len() {
                assert(s[k] == r[k]);
            }
        }
    } else {
        let front = s.drop_last();
        let inner = place::<O, T>(front, x);
        lemma_place_keeps::<O, T>(front, x);
        T::total(x, s.last());
        assert forall|i: int, j: int| 0 <= i < j < r.len() implies #[trigger] r[i].may_precede(
            #[trigger] r[j],
        ) by {
            if j == inner.len() {
                assert(r[i] == inner[i]);
                if inner[i] != x {
                    let k = choose|k: int| 0 <= k < front.len() && front[k] == inner[i];
                    assert(s[k] == inner[i]);
                    assert(s[k].may_precede(s[s.len() - 1]));
                }
            } else {
                assert(r[i] == inner[i] && r[j] == inner[j]);
            }
        }
        assert forall|k: int| 0 <= k < r.len() implies (#[trigger] r[k] == x || s.contains(
            r[k],
        )) by {
            if k < inner.len() {
                assert(r[k] == inner[k]);
                if inner[k] != x {
                    let m = choose|m: int| 0 <= m < front.len() && front[m] == inner[k];
                    assert(s[m] == inner[k]);
                }
            } else {
                assert(s[s.len() - 1] == r[k]);
            }
        }
        assert(s =~= front.push(s.last()));
        assert(r.to_multiset() =~= s.to_multiset().insert(x));
    }
}

/// A ranked list holds the items of the list it came from, each as often, and none of them stands
/// before one that must precede it.
pub proof fn law_ranked<O, T: RankBy<O>>(s: Seq<T>)
    ensures
        is_ranked::<O, T>(ranked::<O, T>(s)),
        ranked::<O, T>(s).to_multiset() == s.to_multiset(),
        ranked::<O, T>(s).len() == s.len(),
    decreases s.len(),
{
    broadcast use vstd::seq_lib::group_to_multiset_ensures;

    if s.len() > 0 {
        law_ranked::<O, T>(s.drop_last());
        lemma_place_keeps::<O, T>(ranked::<O, T>(s.drop_last()), s.last());
        assert(s =~= s.drop_last().push(s.last()));
    }
    assert(ranked::<O, T>(s).to_multiset().len() == s.to_multiset().len());
}

/// A list that is in rank order already is left as it is: items of equal rank keep their order.
pub proof fn law_ranked_is_stable<O, T: RankBy<O>>(s: Seq<T>)
    requires
        is_ranked::<O, T>(s),
    ensures
        ranked::<O, T>(s) == s,
    decreases s.len(),
{
    if s.len() > 0 {
        let front = s.drop_last();
        assert forall|i: int, j: int| 0 <= i < j < front.len() implies #[trigger] front[i]
            .may_precede(#[trigger] front[j]) by {
            assert(s[i].may_precede(s[j]));
        }
        law_ranked_is_stable::<O, T>(front);
        if front.len() > 0 {
            assert(s[s.len() - 2].may_precede(s[s.len() - 1]));
        }
        assert(front.push(s.last()) =~= s);
    }
}

/// Whether two items have the same rank.
pub open spec fn same_rank<O, T: RankBy<O>>(a: T, b: T) -> bool {
    a.may_precede(b) && b.may_precede(a)
}

proof fn lemma_place_ties<O, T: RankBy<O>>(s: Seq<T>, x: T, c: T)
    ensures
        place::<O, T>(s, x).filter(|a: T| same_rank::<O, T>(a, c)) == s.push(x).filter(
            |a: T| same_rank::<O, T>(a, c),
        ),
    decreases s.len(),
{
    let tie = |a: T| same_rank::<O, T>(a, c);
    reveal_with_fuel(Seq::filter, 3);
    if !(s.len() == 0 || s.last().may_precede(x)) {
        let front = s.drop_last();
        lemma_place_ties::<O, T>(front, x, c);
        let r = place::<O, T>(s, x);
        assert(r.drop_last() =~= place::<O, T>(front, x));
        assert(front.push(x).drop_last() =~= front);
        assert(s.push(x).drop_last() =~= s);
        if tie(s.last()) && tie(x) {
            T::transitive(s.last(), c, x);
        }
    }
}

/// Ranking leaves the items of one rank in the order in which they came.
pub proof fn law_ranked_keeps_ties<O, T: RankBy<O>>(s: Seq<T>, c: T)
    ensures
        ranked::<O, T>(s).filter(|a: T| same_rank::<O, T>(a, c)) == s.filter(
            |a: T| same_rank::<O, T>(a, c),
        ),
    decreases s.len(),
{
    let tie = |a: T| same_rank::<O, T>(a, c);
    if s.len() > 0 {
        let front = s.drop_last();
        law_ranked_keeps_ties::<O, T>(front, c);
        let r = ranked::<O, T>(front);
        lemma_place_ties::<O, T>(r, s.last(), c);
        reveal(Seq::filter);
        assert(r.push(s.last()).drop_last() =~= r);
    }
}

/// Whether any two items of a list stand in a relation, the earlier one first.
pub open spec fn pairwise<T>(s: Seq<T>, apart: spec_fn(T, T) -> bool) -> bool {
    forall|i: int, j: int| 0 <= i < j < s.len() ==> apart(#[trigger] s[i], #[trigger] s[j])
}

/// Whether a relation holds both ways where it holds, and never between an item and itself.
pub open spec fn sets_apart<T>(apart: spec_fn(T, T) -> bool) -> bool {
    &&& forall|a: T, b: T| #[trigger] apart(a, b) ==> apart(b, a)
    &&& forall|a: T| !(#[trigger] apart(a, a))
}

/// A ranked list holds items of the list that it came from and no others, and what sets any two of
/// those apart sets any two of its own apart.
pub proof fn law_ranked_keeps_apart<O, T: RankBy<O>>(s: Seq<T>, apart: spec_fn(T, T) -> bool)
    requires
        sets_apart(apart),
        pairwise(s, apart),
    ensures
        pairwise(ranked::<O, T>(s), apart),
        forall|i: int|
            0 <= i < ranked::<O, T>(s).len() ==> s.contains(#[trigger] ranked::<O, T>(s)[i]),
{
    let r = ranked::<O, T>(s);
    law_ranked::<O, T>(s);
    lemma_ranked_contains::<O, T>(s);
    assert(s.no_duplicates()) by {
        assert forall|i: int, j: int| 0 <= i < s.len() && 0 <= j < s.len() && i != j implies s[i]
            != s[j] by {
            if i < j {
                assert(apart(s[i], s[j]));
            } else {
                assert(apart(s[j], s[i]));
            }
        }
    }
    s.lemma_multiset_has_no_duplicates();
    r.lemma_multiset_has_no_duplicates_conv();
    assert forall|i: int, j: int| 0 <= i < j < r.len() implies apart(
        #[trigger] r[i],
        #[trigger] r[j],
    ) by {
        assert(r[i] != r[j]);
        let p = choose|p: int| 0 <= p < s.len() && s[p] == r[i];
        let q = choose|q: int| 0 <= q < s.len() && s[q] == r[j];
        if p < q {
            assert(apart(s[p], s[q]));
        } else {
            assert(apart(s[q], s[p]));
        }
    }
}

/// A ranked list holds no items but those of the list that it came from.
pub proof fn lemma_ranked_contains<O, T: RankBy<O>>(s: Seq<T>)
    ensures
        forall|i: int|
            0 <= i < ranked::<O, T>(s).len() ==> s.contains(#[trigger] ranked::<O, T>(s)[i]),
{
    broadcast use vstd::seq_lib::group_to_multiset_ensures;

    let r = ranked::<O, T>(s);
    law_ranked::<O, T>(s);
    assert forall|i: int| 0 <= i < r.len() implies s.contains(#[trigger] r[i]) by {
        assert(r.contains(r[i]));
        assert(r.to_multiset().count(r[i]) > 0);
        assert(s.to_multiset().count(r[i]) > 0);
    }
}


/// Whether a list of places names each of the first `n` places once.
pub open spec fn rearranges(at: Seq<int>, n: nat) -> bool {
    &&& at.len() == n
    &&& forall|i: int| 0 <= i < n ==> 0 <= #[trigger] at[i] < n
    &&& forall|i: int, j: int| 0 <= i < j < n ==> #[trigger] at[i] != #[trigger] at[j]
}

/// Whether a list is another one in rank order: item `i` is the one that came at place `at[i]`,
/// each item comes once, no item stands before one that must precede it, and items of equal rank
/// stand as they came.
pub open spec fn is_ranking<O, T: RankBy<O>>(res: Seq<T>, s: Seq<T>, at: Seq<int>) -> bool {
    &&& res.len() == s.len()
    &&& rearranges(at, s.len())
    &&& forall|i: int| 0 <= i < s.len() ==> res[i] == s[#[trigger] at[i]]
    &&& forall|i: int, j: int|
        #![trigger res[i], res[j]]
        0 <= i < j < s.len() ==> res[i].may_precede(res[j]) && (res[j].may_precede(res[i])
            ==> at[i] < at[j])
}

proof fn lemma_place_at<O, T: RankBy<O>>(s: Seq<T>, x: T) -> (pos: int)
    ensures
        0 <= pos <= s.len(),
        pos == 0 || s[pos - 1].may_precede(x),
        forall|j: int| pos <= j < s.len() ==> !(#[trigger] s[j]).may_precede(x),
    decreases s.len(),
{
    if s.len() == 0 || s.last().may_precede(x) {
        s.len() as int
    } else {
        let front = s.drop_last();
        let pos = lemma_place_at::<O, T>(front, x);
        assert forall|j: int| pos <= j < s.len() implies !(#[trigger] s[j]).may_precede(x) by {
            if j < front.len() {
                assert(front[j] == s[j]);
            }
        }
        pos
    }
}

/// Ranking puts every item of a list in its place: it loses none, adds none and repeats none, puts
/// none before one that must precede it, and leaves items of equal rank as they came.
pub proof fn law_ranking<O, T: RankBy<O>>(s: Seq<T>)
    ensures
        exists|at: Seq<int>| #[trigger] is_ranking::<O, T>(ranked::<O, T>(s), s, at),
    decreases s.len(),
{
    if s.len() == 0 {
        assert(is_ranking::<O, T>(ranked::<O, T>(s), s, Seq::empty()));
    } else {
        let front = s.drop_last();
        let x = s.last();
        let n = front.len() as int;
        let before = ranked::<O, T>(front);
        law_ranking::<O, T>(front);
        law_ranked::<O, T>(s);
        let was = choose|at: Seq<int>| #[trigger] is_ranking::<O, T>(before, front, at);
        let pos = lemma_place_at::<O, T>(before, x);
        lemma_place::<O, T>(before, x, pos);
        let res = ranked::<O, T>(s);
        assert(res == before.insert(pos, x));
        let at = was.insert(pos, n);
        assert forall|i: int| 0 <= i < s.len() implies 0 <= #[trigger] at[i] < s.len() && res[i]
            == s[at[i]] by {
            if i < pos {
                assert(at[i] == was[i]);
                assert(front[was[i]] == s[was[i]]);
            } else if i > pos {
                assert(at[i] == was[i - 1]);
                assert(front[was[i - 1]] == s[was[i - 1]]);
            }
        }
        assert forall|i: int, j: int| 0 <= i < j < s.len() implies #[trigger] at[i]
            != #[trigger] at[j] by {
            if i != pos && j != pos {
                let a = if i < pos {
                    i
                } else {
                    i - 1
                };
                let b = if j < pos {
                    j
                } else {
                    j - 1
                };
                assert(was[a] != was[b]);
            } else if i == pos {
                assert(at[j] == was[j - 1]);
            } else {
                assert(at[i] == was[i]);
            }
        }
        assert forall|i: int, j: int|
            #![trigger res[i], res[j]]
            0 <= i < j < s.len() implies res[i].may_precede(res[j]) && (res[j].may_precede(res[i])
            ==> at[i] < at[j]) by {
            if i != pos && j != pos {
                let a = if i < pos {
                    i
                } else {
                    i - 1
                };
                let b = if j < pos {
                    j
                } else {
                    j - 1
                };
                assert(res[i] == before[a] && res[j] == before[b]);
            } else if i == pos {
                assert(res[j] == before[j - 1]);
            } else {
                assert(0 <= was[i] < n);
                assert(at[i] == was[i] && at[j] == n);
            }
        }
        assert(is_ranking::<O, T>(res, s, at));
    }
}

/// The first items of a ranking are those that must come first: there are as many as wanted, or all
/// of them, each is an item of the list, and every item that is left out may be preceded by each of
/// them.
pub proof fn law_first_of_ranking<O, T: RankBy<O>>(s: Seq<T>, n: nat)
    ensures
        first_n(ranked::<O, T>(s), n).len() == (if s.len() <= n {
            s.len()
        } else {
            n
        }),
        exists|at: Seq<int>|
            {
                &&& #[trigger] is_ranking::<O, T>(ranked::<O, T>(s), s, at)
                &&& forall|i: int|
                    0 <= i < first_n(ranked::<O, T>(s), n).len() ==> first_n(
                        ranked::<O, T>(s),
                        n,
                    )[i] == s[#[trigger] at[i]]
                &&& forall|i: int, j: int|
                    #![trigger at[i], at[j]]
                    0 <= i < first_n(ranked::<O, T>(s), n).len() && i < j < s.len()
                        ==> s[at[i]].may_precede(s[at[j]])
            },
{
    law_ranking::<O, T>(s);
    let all = ranked::<O, T>(s);
    let at = choose|at: Seq<int>| #[trigger] is_ranking::<O, T>(all, s, at);
    assert forall|i: int, j: int|
        #![trigger at[i], at[j]]
        0 <= i < first_n(all, n).len() && i < j < s.len() implies s[at[i]].may_precede(s[at[j]]) by {
        assert(all[i].may_precede(all[j]));
    }
    assert(is_ranking::<O, T>(all, s, at));
}

} // verus!
