//! Sequences of board positions: ascending enumerations and their facts.
use vstd::prelude::*;

verus! {

/// A sequence of `usize` positions seen as integers.
pub open spec fn ints(v: Seq<usize>) -> Seq<int> {
    v.map_values(|x: usize| x as int)
}

/// The empty or one-element sequence holding what `o` holds.
pub open spec fn opt_seq(o: Option<int>) -> Seq<int> {
    match o {
        Some(i) => seq![i],
        None => Seq::empty(),
    }
}

/// The positions below `n` that satisfy `p`, in ascending order.
pub open spec fn positions(n: int, p: spec_fn(int) -> bool) -> Seq<int>
    decreases n,
{
    if n <= 0 {
        Seq::empty()
    } else if p(n - 1) {
        positions(n - 1, p).push(n - 1)
    } else {
        positions(n - 1, p)
    }
}

/// Every item is smaller than the next.
pub open spec fn ascending(s: Seq<int>) -> bool {
    forall|i: int, j: int| 0 <= i < j < s.len() ==> s[i] < s[j]
}

/// Pushing commutes with seeing positions as integers.
pub proof fn lemma_ints_push(v: Seq<usize>, x: usize)
    ensures
        ints(v.push(x)) == ints(v).push(x as int),
{
    assert(ints(v.push(x)) =~= ints(v).push(x as int));
}

/// What a sequence of positions holds, seen as integers.
pub proof fn lemma_ints_contains(v: Seq<usize>)
    ensures
        forall|x: int|
            #[trigger] ints(v).contains(x) <==> (0 <= x <= usize::MAX && v.contains(x as usize)),
{
    assert forall|x: int| #[trigger]
        ints(v).contains(x) <==> (0 <= x <= usize::MAX && v.contains(x as usize)) by {
        if ints(v).contains(x) {
            let k = choose|k: int| 0 <= k < ints(v).len() && ints(v)[k] == x;
            assert(v[k] == x as usize);
        }
        if 0 <= x <= usize::MAX && v.contains(x as usize) {
            let k = choose|k: int| 0 <= k < v.len() && v[k] == x as usize;
            assert(ints(v)[k] == x);
        }
    }
}

/// What `s.filter(p)` holds: the items of `s` that satisfy `p`.
pub proof fn lemma_filter_member<A>(s: Seq<A>, p: spec_fn(A) -> bool, x: A)
    ensures
        s.filter(p).contains(x) <==> s.contains(x) && p(x),
{
    if s.filter(p).contains(x) {
        s.lemma_filter_contains_rev(p, x);
        let k = choose|k: int| 0 <= k < s.filter(p).len() && s.filter(p)[k] == x;
        s.lemma_filter_pred(p, k);
    }
    if s.contains(x) && p(x) {
        let k = choose|k: int| 0 <= k < s.len() && s[k] == x;
        s.lemma_filter_contains(p, k);
    }
}

/// `positions(n, p)` is ascending and holds the positions below `n` that satisfy `p`.
pub proof fn lemma_positions_members(n: int, p: spec_fn(int) -> bool)
    ensures
        ascending(positions(n, p)),
        forall|x: int| positions(n, p).contains(x) <==> 0 <= x < n && p(x),
    decreases n,
{
    if n > 0 {
        lemma_positions_members(n - 1, p);
        let prev = positions(n - 1, p);
        let cur = positions(n, p);
        assert forall|x: int| cur.contains(x) <==> 0 <= x < n && p(x) by {
            if 0 <= x < n - 1 && p(x) {
                assert(prev.contains(x));
                let k = choose|k: int| 0 <= k < prev.len() && prev[k] == x;
                assert(cur[k] == x);
            }
            if x == n - 1 && p(x) {
                assert(cur[prev.len() as int] == x);
            }
            if cur.contains(x) {
                let k = choose|k: int| 0 <= k < cur.len() && cur[k] == x;
                if k < prev.len() {
                    assert(prev[k] == x);
                    assert(prev.contains(x));
                }
            }
        }
        if p(n - 1) {
            assert forall|i: int, j: int| 0 <= i < j < cur.len() implies cur[i] < cur[j] by {
                if j == prev.len() {
                    assert(prev.contains(prev[i]));
                }
            }
        }
    }
}

proof fn lemma_positions_agree(n: int, p: spec_fn(int) -> bool, q: spec_fn(int) -> bool)
    requires
        forall|x: int| 0 <= x < n ==> #[trigger] p(x) == q(x),
    ensures
        positions(n, p) == positions(n, q),
    decreases n,
{
    if n > 0 {
        lemma_positions_agree(n - 1, p, q);
    }
}

proof fn lemma_positions_stop(n: int, m: int, p: spec_fn(int) -> bool)
    requires
        0 <= m <= n,
        forall|x: int| m <= x < n ==> !#[trigger] p(x),
    ensures
        positions(n, p) == positions(m, p),
    decreases n,
{
    if n > m {
        lemma_positions_stop(n - 1, m, p);
    }
}

/// An ascending sequence of positions below `n` is the ascending
/// enumeration of the positions it holds.
pub proof fn lemma_ascending_is_positions(s: Seq<int>, n: int, p: spec_fn(int) -> bool)
    requires
        0 <= n,
        ascending(s),
        forall|x: int| s.contains(x) <==> 0 <= x < n && p(x),
    ensures
        s == positions(n, p),
    decreases s.len(),
{
    lemma_positions_members(n, p);
    if s.len() == 0 {
        assert forall|x: int| 0 <= x < n implies !#[trigger] p(x) by {
            assert(!s.contains(x));
        }
        lemma_positions_stop(n, 0, p);
    } else {
        let last = s.last();
        let rest = s.drop_last();
        assert(s.contains(last));
        assert forall|x: int| last < x < n implies !#[trigger] p(x) by {
            if p(x) {
                assert(s.contains(x));
                let k = choose|k: int| 0 <= k < s.len() && s[k] == x;
                assert(s[k] <= last);
            }
        }
        lemma_positions_stop(n, last + 1, p);
        let q = |x: int| p(x) && x < last;
        assert forall|x: int| rest.contains(x) <==> 0 <= x < last && q(x) by {
            if rest.contains(x) {
                let k = choose|k: int| 0 <= k < rest.len() && rest[k] == x;
                assert(s[k] == x);
                assert(s.contains(x));
            }
            if 0 <= x < last && p(x) {
                assert(s.contains(x));
                let k = choose|k: int| 0 <= k < s.len() && s[k] == x;
                assert(k != s.len() - 1);
                assert(rest[k] == x);
            }
        }
        lemma_ascending_is_positions(rest, last, q);
        lemma_positions_agree(last, p, q);
        assert(s =~= rest.push(last));
    }
}

/// What `x` belongs to in one block of `s.flat_map(f)` belongs to the whole.
pub proof fn lemma_flat_map_contains<A, B>(s: Seq<A>, f: spec_fn(A) -> Seq<B>, t: int, x: B)
    requires
        0 <= t < s.len(),
        f(s[t]).contains(x),
    ensures
        s.flat_map(f).contains(x),
    decreases s.len(),
{
    let init = s.drop_last();
    init.lemma_flat_map_push(f, s.last());
    assert(init.push(s.last()) =~= s);
    let head = init.flat_map(f);
    let block = f(s[t]);
    let k = choose|k: int| 0 <= k < block.len() && block[k] == x;
    if t == s.len() - 1 {
        assert((head + f(s.last()))[head.len() + k] == x);
    } else {
        lemma_flat_map_contains(init, f, t, x);
        let j = choose|j: int| 0 <= j < head.len() && head[j] == x;
        assert((head + f(s.last()))[j] == x);
    }
}

/// What belongs to `s.flat_map(f)` belongs to one of its blocks.
pub proof fn lemma_flat_map_member<A, B>(s: Seq<A>, f: spec_fn(A) -> Seq<B>, x: B) -> (t: int)
    requires
        s.flat_map(f).contains(x),
    ensures
        0 <= t < s.len(),
        f(s[t]).contains(x),
    decreases s.len(),
{
    let init = s.drop_last();
    if s.len() == 0 {
        assert(s.flat_map(f) =~= Seq::<B>::empty());
        0
    } else {
        init.lemma_flat_map_push(f, s.last());
        assert(init.push(s.last()) =~= s);
        let head = init.flat_map(f);
        let all = s.flat_map(f);
        let j = choose|j: int| 0 <= j < all.len() && all[j] == x;
        if j < head.len() {
            assert(head[j] == x);
            lemma_flat_map_member(init, f, x)
        } else {
            assert(f(s.last())[j - head.len()] == x);
            s.len() - 1
        }
    }
}

/// `s` without repeats: each item at its first occurrence, in order.
pub open spec fn first_occurrences<A>(s: Seq<A>) -> Seq<A>
    decreases s.len(),
{
    if s.len() == 0 {
        Seq::empty()
    } else {
        let d = first_occurrences(s.drop_last());
        if d.contains(s.last()) {
            d
        } else {
            d.push(s.last())
        }
    }
}

/// `first_occurrences(s)` holds no item twice and holds what `s` holds.
pub proof fn lemma_first_occurrences<A>(s: Seq<A>)
    ensures
        first_occurrences(s).no_duplicates(),
        forall|x: A| #[trigger] first_occurrences(s).contains(x) <==> s.contains(x),
    decreases s.len(),
{
    if s.len() > 0 {
        let init = s.drop_last();
        let last = s.last();
        lemma_first_occurrences(init);
        let d = first_occurrences(init);
        assert(s =~= init.push(last));
        assert forall|x: A| #[trigger] first_occurrences(s).contains(x) <==> s.contains(x) by {
            if s.contains(x) && x != last {
                let k = choose|k: int| 0 <= k < s.len() && s[k] == x;
                assert(init[k] == x);
                assert(init.contains(x));
            }
            if init.contains(x) {
                let k = choose|k: int| 0 <= k < init.len() && init[k] == x;
                assert(s[k] == x);
            }
            if x == last {
                assert(s[s.len() - 1] == x);
            }
            if !d.contains(last) {
                let e = d.push(last);
                if e.contains(x) && x != last {
                    let k = choose|k: int| 0 <= k < e.len() && e[k] == x;
                    assert(d[k] == x);
                }
                if d.contains(x) {
                    let k = choose|k: int| 0 <= k < d.len() && d[k] == x;
                    assert(e[k] == x);
                }
                if x == last {
                    assert(e[d.len() as int] == x);
                }
            }
        }
    }
}

/// A sequence without repeats is its own first occurrences.
pub proof fn lemma_first_occurrences_distinct<A>(s: Seq<A>)
    requires
        s.no_duplicates(),
    ensures
        first_occurrences(s) == s,
    decreases s.len(),
{
    if s.len() > 0 {
        let init = s.drop_last();
        assert(init.no_duplicates());
        lemma_first_occurrences_distinct(init);
        if init.contains(s.last()) {
            let k = choose|k: int| 0 <= k < init.len() && init[k] == s.last();
            assert(s[k] == s[s.len() - 1]);
        }
        assert(s =~= init.push(s.last()));
    }
}

/// `first_occurrences(s)` is no longer than `s`.
pub proof fn lemma_first_occurrences_len<A>(s: Seq<A>)
    ensures
        first_occurrences(s).len() <= s.len(),
    decreases s.len(),
{
    if s.len() > 0 {
        lemma_first_occurrences_len(s.drop_last());
    }
}

} // verus!
