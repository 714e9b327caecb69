//! Children-first visitation order over resolved parent links.
//!
//! A commit becomes eligible once every in-set commit that names it as a
//! parent has been emitted; among the eligible commits the one with the
//! smallest (timestamp, position) goes next. Commits that never become
//! eligible (cycles) follow in position order.

use vstd::prelude::*;

verus! {

/// Every parent link names a commit of the set.
pub open spec fn links_wf(links: Seq<Seq<usize>>) -> bool {
    forall|i: int, k: int|
        0 <= i < links.len() && 0 <= k < links[i].len() ==> (#[trigger] links[i][k] as int)
            < links.len()
}

/// The (child, parent) edges of the first `n` commits: children in position
/// order, each child's parents in listed order.
pub open spec fn edges_upto(links: Seq<Seq<usize>>, n: nat) -> Seq<(usize, usize)>
    decreases n,
{
    if n == 0 {
        Seq::empty()
    } else {
        edges_upto(links, (n - 1) as nat) + links[n - 1].map_values(
            |p: usize| ((n - 1) as usize, p),
        )
    }
}

/// All (child, parent) edges of the set.
pub open spec fn edges_of(links: Seq<Seq<usize>>) -> Seq<(usize, usize)> {
    edges_upto(links, links.len())
}

/// How often `j` occurs in `s`.
pub open spec fn count_in(s: Seq<usize>, j: usize) -> nat
    decreases s.len(),
{
    if s.len() == 0 {
        0
    } else {
        count_in(s.drop_last(), j) + if s.last() == j {
            1nat
        } else {
            0nat
        }
    }
}

/// The links to `j` from those of the first `n` commits not yet in `done`.
pub open spec fn pending_upto(links: Seq<Seq<usize>>, done: Seq<usize>, j: usize, n: nat) -> nat
    decreases n,
{
    if n == 0 {
        0
    } else {
        pending_upto(links, done, j, (n - 1) as nat) + if done.contains((n - 1) as usize) {
            0nat
        } else {
            count_in(links[n - 1], j)
        }
    }
}

/// The readiness counter of `j`: links to it from commits not yet emitted.
pub open spec fn waiting(links: Seq<Seq<usize>>, done: Seq<usize>, j: usize) -> nat {
    pending_upto(links, done, j, links.len())
}

/// `j` has not been emitted and none of its in-set children is still waiting.
pub open spec fn eligible(links: Seq<Seq<usize>>, done: Seq<usize>, j: usize) -> bool {
    &&& (j as int) < links.len()
    &&& !done.contains(j)
    &&& waiting(links, done, j) == 0
}

/// `a` goes before `b`: smaller timestamp, then smaller position.
pub open spec fn precedes(ts: Seq<i64>, a: usize, b: usize) -> bool {
    ts[a as int] < ts[b as int] || (ts[a as int] == ts[b as int] && a < b)
}

/// `j` is the eligible commit that precedes every other eligible one.
pub open spec fn is_next(links: Seq<Seq<usize>>, ts: Seq<i64>, done: Seq<usize>, j: usize) -> bool {
    &&& eligible(links, done, j)
    &&& forall|k: usize| #[trigger] eligible(links, done, k) && k != j ==> precedes(ts, j, k)
}

/// The positions below `n` that `done` does not hold, in increasing order.
pub open spec fn unvisited_upto(done: Seq<usize>, n: nat) -> Seq<usize>
    decreases n,
{
    if n == 0 {
        Seq::empty()
    } else {
        let r = unvisited_upto(done, (n - 1) as nat);
        if done.contains((n - 1) as usize) {
            r
        } else {
            r.push((n - 1) as usize)
        }
    }
}

/// `order` emits `m` commits by readiness and priority, at which point none
/// is eligible, and then every commit left over in position order.
pub open spec fn ordered_until(
    links: Seq<Seq<usize>>,
    ts: Seq<i64>,
    order: Seq<usize>,
    m: int,
) -> bool {
    &&& 0 <= m <= order.len()
    &&& order.len() == links.len()
    &&& forall|k: int| 0 <= k < m ==> is_next(links, ts, order.take(k), #[trigger] order[k])
    &&& forall|j: usize| !eligible(links, order.take(m), j)
    &&& order.skip(m) == unvisited_upto(order.take(m), links.len())
}

/// `order` is the visitation order of the commit set.
pub open spec fn is_visitation_order(links: Seq<Seq<usize>>, ts: Seq<i64>, order: Seq<usize>) -> bool {
    exists|m: int| ordered_until(links, ts, order, m)
}


proof fn lemma_count_le_len(s: Seq<usize>, j: usize)
    ensures
        count_in(s, j) <= s.len(),
    decreases s.len(),
{
    if s.len() > 0 {
        lemma_count_le_len(s.drop_last(), j);
    }
}

/// Counting over one more element of a prefix.
proof fn lemma_count_take_step(s: Seq<usize>, k: int, j: usize)
    requires
        0 <= k < s.len(),
    ensures
        count_in(s.take(k + 1), j) == count_in(s.take(k), j) + if s[k] == j {
            1nat
        } else {
            0nat
        },
{
    assert(s.take(k + 1).drop_last() =~= s.take(k));
}

proof fn lemma_count_take_le(s: Seq<usize>, k: int, j: usize)
    requires
        0 <= k <= s.len(),
    ensures
        count_in(s.take(k), j) <= count_in(s, j),
    decreases s.len() - k,
{
    if k < s.len() {
        lemma_count_take_step(s, k, j);
        lemma_count_take_le(s, k + 1, j);
    } else {
        assert(s.take(k) =~= s);
    }
}

proof fn lemma_edges_len_mono(links: Seq<Seq<usize>>, a: nat, b: nat)
    requires
        a <= b,
    ensures
        edges_upto(links, a).len() <= edges_upto(links, b).len(),
    decreases b,
{
    if a < b {
        lemma_edges_len_mono(links, a, (b - 1) as nat);
    }
}

proof fn lemma_pending_le_edges(links: Seq<Seq<usize>>, done: Seq<usize>, j: usize, n: nat)
    ensures
        pending_upto(links, done, j, n) <= edges_upto(links, n).len(),
    decreases n,
{
    if n > 0 {
        lemma_pending_le_edges(links, done, j, (n - 1) as nat);
        lemma_count_le_len(links[n - 1], j);
    }
}

/// Emitting `c` lowers each counter by the links from `c`.
proof fn lemma_pending_push(
    links: Seq<Seq<usize>>,
    done: Seq<usize>,
    c: usize,
    j: usize,
    n: nat,
)
    requires
        n <= usize::MAX,
        !done.contains(c),
    ensures
        pending_upto(links, done.push(c), j, n) + (if (c as int) < n {
            count_in(links[c as int], j)
        } else {
            0nat
        }) == pending_upto(links, done, j, n),
    decreases n,
{
    if n > 0 {
        lemma_pending_push(links, done, c, j, (n - 1) as nat);
        let x = (n - 1) as usize;
        lemma_push_contains(done, c);
    }
}

/// A child not yet emitted keeps its links counted.
proof fn lemma_pending_ge_child(
    links: Seq<Seq<usize>>,
    done: Seq<usize>,
    c: usize,
    j: usize,
    n: nat,
)
    requires
        (c as int) < n,
        !done.contains(c),
    ensures
        pending_upto(links, done, j, n) >= count_in(links[c as int], j),
    decreases n,
{
    if (c as int) < n - 1 {
        lemma_pending_ge_child(links, done, c, j, (n - 1) as nat);
    }
}

/// With no pending link to `j`, every child that links to `j` is in `done`.
pub proof fn lemma_no_pending_children_done(
    links: Seq<Seq<usize>>,
    done: Seq<usize>,
    j: usize,
    c: usize,
    k: int,
)
    requires
        (c as int) < links.len(),
        0 <= k < links[c as int].len(),
        links[c as int][k] == j,
        waiting(links, done, j) == 0,
    ensures
        done.contains(c),
{
    if !done.contains(c) {
        lemma_pending_ge_child(links, done, c, j, links.len());
        lemma_count_take_step(links[c as int], k, j);
        lemma_count_take_le(links[c as int], k + 1, j);
    }
}

/// How many positions below `n` `done` holds.
spec fn seen_count(done: Seq<usize>, n: nat) -> nat
    decreases n,
{
    if n == 0 {
        0
    } else {
        seen_count(done, (n - 1) as nat) + if done.contains((n - 1) as usize) {
            1nat
        } else {
            0nat
        }
    }
}

proof fn lemma_unvisited_len(done: Seq<usize>, n: nat)
    ensures
        unvisited_upto(done, n).len() + seen_count(done, n) == n,
    decreases n,
{
    if n > 0 {
        lemma_unvisited_len(done, (n - 1) as nat);
    }
}

proof fn lemma_seen_count_push(done: Seq<usize>, x: usize, n: nat)
    requires
        n <= usize::MAX,
        !done.contains(x),
    ensures
        seen_count(done.push(x), n) == seen_count(done, n) + if (x as int) < n {
            1nat
        } else {
            0nat
        },
    decreases n,
{
    if n > 0 {
        lemma_seen_count_push(done, x, (n - 1) as nat);
        let y = (n - 1) as usize;
        lemma_push_contains(done, x);
    }
}

proof fn lemma_seen_count_le(done: Seq<usize>, n: nat)
    ensures
        seen_count(done, n) <= n,
    decreases n,
{
    if n > 0 {
        lemma_seen_count_le(done, (n - 1) as nat);
    }
}

proof fn lemma_seen_count_all(done: Seq<usize>, n: nat)
    requires
        n <= usize::MAX,
        done.no_duplicates(),
        forall|i: int| 0 <= i < done.len() ==> (#[trigger] done[i] as int) < n,
    ensures
        seen_count(done, n) == done.len(),
    decreases done.len(),
{
    if done.len() == 0 {
        lemma_seen_count_zero(done, n);
    } else {
        let d = done.drop_last();
        let x = done.last();
        assert(d.push(x) =~= done);
        assert(!d.contains(x));
        lemma_seen_count_all(d, n);
        lemma_seen_count_push(d, x, n);
    }
}

proof fn lemma_seen_count_zero(done: Seq<usize>, n: nat)
    requires
        done.len() == 0,
    ensures
        seen_count(done, n) == 0,
    decreases n,
{
    if n > 0 {
        lemma_seen_count_zero(done, (n - 1) as nat);
    }
}

/// A duplicate-free sequence of positions below `n` has at most `n` entries,
/// and the positions it leaves out number the rest.
proof fn lemma_distinct_bounded(done: Seq<usize>, n: nat)
    requires
        n <= usize::MAX,
        done.no_duplicates(),
        forall|i: int| 0 <= i < done.len() ==> (#[trigger] done[i] as int) < n,
    ensures
        done.len() <= n,
        unvisited_upto(done, n).len() == n - done.len(),
{
    lemma_seen_count_all(done, n);
    lemma_seen_count_le(done, n);
    lemma_unvisited_len(done, n);
}

proof fn lemma_unvisited_members(done: Seq<usize>, n: nat)
    requires
        n <= usize::MAX,
    ensures
        forall|i: int| 0 <= i < unvisited_upto(done, n).len() ==> {
            let x = #[trigger] unvisited_upto(done, n)[i];
            &&& (x as int) < n
            &&& !done.contains(x)
        },
        forall|x: usize| (x as int) < n && !done.contains(x) ==> #[trigger] unvisited_upto(
            done,
            n,
        ).contains(x),
        forall|i: int, k: int|
            0 <= i < k < unvisited_upto(done, n).len() ==> unvisited_upto(done, n)[i]
                < unvisited_upto(done, n)[k],
    decreases n,
{
    if n > 0 {
        lemma_unvisited_members(done, (n - 1) as nat);
        let r = unvisited_upto(done, (n - 1) as nat);
        let y = (n - 1) as usize;
        if !done.contains(y) {
            assert(r.push(y)[r.len() as int] == y);
            assert forall|x: usize| (x as int) < n && !done.contains(x) implies #[trigger] r.push(
                y,
            ).contains(x) by {
                if x == y {
                    assert(r.push(y)[r.len() as int] == x);
                } else {
                    assert((x as int) < n - 1);
                    assert(unvisited_upto(done, (n - 1) as nat).contains(x));
                    let i = choose|i: int| 0 <= i < r.len() && r[i] == x;
                    assert(r.push(y)[i] == x);
                }
            }
        }
    }
}


proof fn lemma_push_contains(s: Seq<usize>, y: usize)
    ensures
        forall|x: usize| #[trigger] s.push(y).contains(x) <==> (s.contains(x) || x == y),
{
    assert forall|x: usize| #[trigger] s.push(y).contains(x) <==> (s.contains(x) || x == y) by {
        if s.push(y).contains(x) {
            let t = choose|t: int| 0 <= t < s.push(y).len() && s.push(y)[t] == x;
            if t < s.len() {
                assert(s[t] == x);
            }
        }
        if s.contains(x) {
            let t = choose|t: int| 0 <= t < s.len() && s[t] == x;
            assert(s.push(y)[t] == x);
        }
        assert(s.push(y)[s.len() as int] == y);
    }
}

proof fn lemma_remove_contains(s: Seq<usize>, b: int)
    requires
        0 <= b < s.len(),
        s.no_duplicates(),
    ensures
        s.remove(b).no_duplicates(),
        forall|x: usize| #[trigger] s.remove(b).contains(x) <==> (s.contains(x) && x != s[b]),
{
    let r = s.remove(b);
    assert forall|x: usize| #[trigger] r.contains(x) <==> (s.contains(x) && x != s[b]) by {
        if r.contains(x) {
            let t = choose|t: int| 0 <= t < r.len() && r[t] == x;
            if t < b {
                assert(s[t] == x);
            } else {
                assert(s[t + 1] == x);
            }
        }
        if s.contains(x) && x != s[b] {
            let t = choose|t: int| 0 <= t < s.len() && s[t] == x;
            if t < b {
                assert(r[t] == x);
            } else {
                assert(t != b);
                assert(r[t - 1] == x);
            }
        }
    }
    assert forall|i: int, k: int| 0 <= i < r.len() && 0 <= k < r.len() && i != k implies r[i]
        != r[k] by {
        let si = if i < b { i } else { i + 1 };
        let sk = if k < b { k } else { k + 1 };
        assert(r[i] == s[si]);
        assert(r[k] == s[sk]);
    }
}

/// `order` lists each commit of the set exactly once.
pub open spec fn is_permutation(order: Seq<usize>, n: nat) -> bool {
    &&& order.len() == n
    &&& order.no_duplicates()
    &&& forall|k: int| 0 <= k < order.len() ==> (#[trigger] order[k] as int) < n
}

proof fn lemma_seen_count_missing(done: Seq<usize>, n: nat, c: usize)
    requires
        n <= usize::MAX,
        (c as int) < n,
        !done.contains(c),
    ensures
        seen_count(done, n) < n,
    decreases n,
{
    lemma_seen_count_le(done, (n - 1) as nat);
    if (c as int) < n - 1 {
        lemma_seen_count_missing(done, (n - 1) as nat, c);
    }
}

/// A permutation of the positions below `n` lists each of them.
pub proof fn lemma_permutation_covers(order: Seq<usize>, n: nat, c: usize)
    requires
        is_permutation(order, n),
        (c as int) < n,
        n <= usize::MAX,
    ensures
        order.contains(c),
{
    lemma_seen_count_all(order, n);
    if !order.contains(c) {
        lemma_seen_count_missing(order, n, c);
    }
}

/// The initial readiness counter of every commit: how many links point at it.
pub fn readiness_counts(links: &Vec<Vec<usize>>) -> (r: Vec<usize>)
    requires
        links_wf(links.deep_view()),
        edges_of(links.deep_view()).len() <= usize::MAX,
    ensures
        r.len() == links.len(),
        forall|j: int|
            0 <= j < links.len() ==> #[trigger] r[j] == waiting(
                links.deep_view(),
                Seq::empty(),
                j as usize,
            ),
{
    let ghost lk = links.deep_view();
    let n = links.len();
    assert(lk.len() == n);
    let mut r: Vec<usize> = Vec::new();
    let mut i: usize = 0;
    while i < n
        invariant
            i <= n,
            r.len() == i,
            forall|j: int| 0 <= j < i ==> #[trigger] r[j] == 0,
        decreases n - i,
    {
        r.push(0);
        i = i + 1;
    }
    let mut c: usize = 0;
    while c < n
        invariant
            n == links.len(),
            lk == links.deep_view(),
            links_wf(lk),
            edges_of(lk).len() <= usize::MAX,
            c <= n,
            r.len() == n,
            forall|j: int|
                0 <= j < n ==> #[trigger] r[j] == pending_upto(
                    lk,
                    Seq::empty(),
                    j as usize,
                    c as nat,
                ),
        decreases n - c,
    {
        let row = &links[c];
        assert(lk[c as int] =~= row@);
        let mut k: usize = 0;
        while k < row.len()
            invariant
                n == links.len(),
                lk == links.deep_view(),
                links_wf(lk),
                edges_of(lk).len() <= usize::MAX,
                c < n,
                row@ == lk[c as int],
                k <= row.len(),
                r.len() == n,
                forall|j: int|
                    0 <= j < n ==> #[trigger] r[j] == pending_upto(
                        lk,
                        Seq::empty(),
                        j as usize,
                        c as nat,
                    ) + count_in(row@.take(k as int), j as usize),
            decreases row.len() - k,
        {
            let p = row[k];
            assert(lk[c as int][k as int] == p);
            proof {
                lemma_count_take_step(row@, k as int, p);
                lemma_count_take_le(row@, k + 1, p);
                lemma_count_le_len(row@, p);
                lemma_pending_le_edges(lk, Seq::empty(), p, c as nat);
                lemma_edges_len_mono(lk, (c + 1) as nat, n as nat);
                assert forall|j: int| 0 <= j < n && j != p implies #[trigger] count_in(
                    row@.take(k + 1),
                    j as usize,
                ) == count_in(row@.take(k as int), j as usize) by {
                    lemma_count_take_step(row@, k as int, j as usize);
                }
            }
            r.set(p, r[p] + 1);
            k = k + 1;
        }
        assert(row@.take(k as int) =~= row@);
        c = c + 1;
    }
    r
}

/// The position in `ready` of the entry that precedes all others.
fn earliest(ready: &Vec<usize>, timestamps: &Vec<i64>) -> (b: usize)
    requires
        ready.len() > 0,
        ready@.no_duplicates(),
        forall|t: int| 0 <= t < ready.len() ==> (#[trigger] ready[t] as int) < timestamps.len(),
    ensures
        b < ready.len(),
        forall|t: int|
            0 <= t < ready.len() && t != b ==> precedes(timestamps@, ready[b as int], #[trigger] ready[t]),
{
    let mut b: usize = 0;
    let mut t: usize = 1;
    while t < ready.len()
        invariant
            1 <= t <= ready.len(),
            b < t,
            ready@.no_duplicates(),
            forall|u: int| 0 <= u < ready.len() ==> (#[trigger] ready[u] as int) < timestamps.len(),
            forall|u: int|
                0 <= u < t && u != b ==> precedes(timestamps@, ready[b as int], #[trigger] ready[u]),
        decreases ready.len() - t,
    {
        let x = ready[t];
        let y = ready[b];
        if timestamps[x] < timestamps[y] || (timestamps[x] == timestamps[y] && x < y) {
            assert(x != y);
            b = t;
        }
        t = t + 1;
    }
    b
}

/// The visitation order: repeatedly emits the eligible commit with the
/// smallest (timestamp, position), then appends the commits that never
/// became eligible in position order.
pub fn visitation_order(links: &Vec<Vec<usize>>, timestamps: &Vec<i64>) -> (order: Vec<usize>)
    requires
        links_wf(links.deep_view()),
        edges_of(links.deep_view()).len() <= usize::MAX,
        timestamps.len() == links.len(),
    ensures
        is_visitation_order(links.deep_view(), timestamps@, order@),
        is_permutation(order@, links.len() as nat),
        acyclic(links.deep_view()) ==> forall|c: int, k: int, i: int, j: int|
            #![trigger order@[i], order@[j], links.deep_view()[c][k]]
            0 <= c < links.len() && 0 <= k < links.deep_view()[c].len() && 0 <= i < order.len()
                && 0 <= j < order.len() && order@[i] == c && order@[j] == links.deep_view()[c][k]
                ==> i < j,
{
    let ghost lk = links.deep_view();
    let ghost ts = timestamps@;
    let n = links.len();
    assert(lk.len() == n);
    let mut indeg = readiness_counts(links);
    let mut visited: Vec<bool> = Vec::new();
    let mut ready: Vec<usize> = Vec::new();
    let mut i: usize = 0;
    while i < n
        invariant
            n == links.len(),
            lk == links.deep_view(),
            i <= n,
            visited.len() == i,
            indeg.len() == n,
            forall|j: int| 0 <= j < i ==> !(#[trigger] visited[j]),
            forall|j: int|
                0 <= j < n ==> #[trigger] indeg[j] == waiting(lk, Seq::empty(), j as usize),
            ready@.no_duplicates(),
            forall|j: usize| #[trigger]
                ready@.contains(j) <==> ((j as int) < i && indeg[j as int] == 0),
        decreases n - i,
    {
        proof {
            lemma_push_contains(ready@, i);
        }
        if indeg[i] == 0 {
            assert(!ready@.contains(i));
            ready.push(i);
        }
        visited.push(false);
        i = i + 1;
    }
    let mut order: Vec<usize> = Vec::new();
    assert(order@ =~= Seq::<usize>::empty());
    while ready.len() > 0
        invariant
            n == links.len(),
            lk == links.deep_view(),
            ts == timestamps@,
            links_wf(lk),
            timestamps.len() == n,
            visited.len() == n,
            indeg.len() == n,
            forall|j: int| 0 <= j < n ==> (#[trigger] visited[j] <==> order@.contains(j as usize)),
            forall|j: int| 0 <= j < n ==> #[trigger] indeg[j] == waiting(lk, order@, j as usize),
            ready@.no_duplicates(),
            forall|j: usize| #[trigger] ready@.contains(j) <==> eligible(lk, order@, j),
            forall|j: usize| #[trigger] order@.contains(j) ==> waiting(lk, order@, j) == 0,
            forall|k: int|
                0 <= k < order.len() ==> is_next(lk, ts, order@.take(k), #[trigger] order@[k]),
            forall|k: int| 0 <= k < order.len() ==> (#[trigger] order@[k] as int) < n,
            order@.no_duplicates(),
        decreases n - order.len(),
    {
        assert forall|t: int| 0 <= t < ready.len() implies (#[trigger] ready[t] as int) < n by {
            assert(ready@.contains(ready[t]));
        }
        let b = earliest(&ready, timestamps);
        let ghost before = ready@;
        let j = ready.remove(b);
        let ghost done = order@;
        proof {
            lemma_remove_contains(before, b as int);
        }
        assert(ready@.contains(j) == false) by {
            if ready@.contains(j) {
                let t = choose|t: int| 0 <= t < ready.len() && ready[t] == j;
                if t < b {
                    assert(before[t] == j);
                } else {
                    assert(before[t + 1] == j);
                }
            }
        }
        assert(before.contains(j));
        assert(is_next(lk, ts, done, j)) by {
            assert forall|k: usize| #[trigger] eligible(lk, done, k) && k != j implies precedes(
                ts,
                j,
                k,
            ) by {
                assert(before.contains(k));
                let t = choose|t: int| 0 <= t < before.len() && before[t] == k;
            }
        }
        proof {
            lemma_distinct_bounded(done.push(j), n as nat);
        }
        order.push(j);
        visited.set(j, true);
        let ghost row_j = lk[j as int];
        proof {
            assert(order@ == done.push(j));
            assert forall|k: int| 0 <= k < order.len() implies is_next(
                lk,
                ts,
                order@.take(k),
                #[trigger] order@[k],
            ) by {
                if k < done.len() {
                    assert(order@.take(k) =~= done.take(k));
                } else {
                    assert(order@.take(k) =~= done);
                }
            }
            assert forall|x: usize| true implies pending_upto(lk, order@, x, n as nat) + count_in(
                lk[j as int],
                x,
            ) == #[trigger] waiting(lk, done, x) by {
                lemma_pending_push(lk, done, j, x, n as nat);
            }
            lemma_push_contains(done, j);
            assert forall|x: usize| #[trigger] order@.contains(x) implies count_in(row_j, x) == 0
                && waiting(lk, order@, x) == 0 by {
                if x != j {
                    lemma_pending_ge_child(lk, done, j, x, n as nat);
                }
                lemma_pending_push(lk, done, j, x, n as nat);
                if x != j {
                    let t = choose|t: int| 0 <= t < order.len() && order@[t] == x;
                    assert(done[t] == x);
                }
            }
            assert forall|x: usize| #[trigger] order@.contains(x) <==> (done.contains(x) || x == j) by {
                if order@.contains(x) {
                    let t = choose|t: int| 0 <= t < order.len() && order@[t] == x;
                    if t < done.len() {
                        assert(done[t] == x);
                    }
                }
                if done.contains(x) {
                    let t = choose|t: int| 0 <= t < done.len() && done[t] == x;
                    assert(order@[t] == x);
                }
                assert(order@[done.len() as int] == j);
            }
        }
        let row = &links[j];
        assert(lk[j as int] =~= row@);
        let mut k: usize = 0;
        while k < row.len()
            invariant
                n == links.len(),
                lk == links.deep_view(),
                links_wf(lk),
                (j as int) < n,
                row@ == lk[j as int],
                k <= row.len(),
                visited.len() == n,
                indeg.len() == n,
                forall|x: int|
                    0 <= x < n ==> #[trigger] indeg[x] + count_in(row@.take(k as int), x as usize)
                        == waiting(lk, order@, x as usize) + count_in(row@, x as usize),
                ready@.no_duplicates(),
                forall|x: usize| #[trigger]
                    ready@.contains(x) <==> ((x as int) < n && !order@.contains(x) && indeg[x as int]
                        == 0),
                forall|x: usize| #[trigger] order@.contains(x) ==> waiting(lk, order@, x) == 0,
                forall|x: usize| #[trigger] order@.contains(x) ==> count_in(row@, x) == 0,
            decreases row.len() - k,
        {
            let p = row[k];
            assert(lk[j as int][k as int] == p);
            proof {
                lemma_count_take_step(row@, k as int, p);
                lemma_count_take_le(row@, k + 1, p);
                assert forall|x: int| 0 <= x < n && x != p implies #[trigger] count_in(
                    row@.take(k + 1),
                    x as usize,
                ) == count_in(row@.take(k as int), x as usize) by {
                    lemma_count_take_step(row@, k as int, x as usize);
                }
            }
            proof {
                lemma_push_contains(ready@, p);
            }
            if indeg[p] > 0 {
                indeg.set(p, indeg[p] - 1);
                if indeg[p] == 0 {
                    assert(!order@.contains(p));
                    assert(!ready@.contains(p));
                    ready.push(p);
                }
            }
            k = k + 1;
        }
        assert(row@.take(k as int) =~= row@);
    }
    let ghost prefix = order@;
    proof {
        lemma_unvisited_members(prefix, n as nat);
    }
    let mut c: usize = 0;
    while c < n
        invariant
            n == links.len(),
            c <= n,
            visited.len() == n,
            forall|j: int| 0 <= j < n ==> (#[trigger] visited[j] <==> prefix.contains(j as usize)),
            order@ == prefix + unvisited_upto(prefix, c as nat),
        decreases n - c,
    {
        if !visited[c] {
            order.push(c);
        }
        c = c + 1;
    }
    proof {
        lemma_distinct_bounded(prefix, n as nat);
        let m = prefix.len() as int;
        assert(order@.take(m) =~= prefix);
        assert(order@.skip(m) =~= unvisited_upto(prefix, n as nat));
        assert forall|k: int| 0 <= k < m implies is_next(lk, ts, order@.take(k), #[trigger] order@[k]) by {
            assert(order@.take(k) =~= prefix.take(k));
            assert(order@[k] == prefix[k]);
        }
        assert(order.len() == n);
        assert forall|j: usize| !eligible(lk, order@.take(m), j) by {
            if eligible(lk, prefix, j) {
                assert(ready@.contains(j));
                assert(ready.len() > 0);
            }
        }
        assert(ordered_until(lk, ts, order@, m));
        lemma_visitation_is_permutation(lk, ts, order@);
        if acyclic(lk) {
            lemma_parents_follow_children(lk, ts, order@);
        }
    }
    order
}


/// Every (child, parent) edge: children in position order, each child's
/// parents in listed order.
pub fn collect_edges(links: &Vec<Vec<usize>>) -> (r: Vec<(usize, usize)>)
    ensures
        r@ == edges_of(links.deep_view()),
{
    let ghost lk = links.deep_view();
    let n = links.len();
    assert(lk.len() == n);
    let mut r: Vec<(usize, usize)> = Vec::new();
    let mut c: usize = 0;
    while c < n
        invariant
            n == links.len(),
            lk == links.deep_view(),
            lk.len() == n,
            c <= n,
            r@ == edges_upto(lk, c as nat),
        decreases n - c,
    {
        let row = &links[c];
        assert(lk[c as int] =~= row@);
        let mut k: usize = 0;
        while k < row.len()
            invariant
                c < n,
                lk.len() == n,
                row@ == lk[c as int],
                k <= row.len(),
                r@ == edges_upto(lk, c as nat) + row@.take(k as int).map_values(
                    |p: usize| (c, p),
                ),
            decreases row.len() - k,
        {
            r.push((c, row[k]));
            k = k + 1;
            assert(row@.take(k as int).map_values(|p: usize| (c, p)) =~= row@.take(
                k - 1,
            ).map_values(|p: usize| (c, p)).push((c, row@[k - 1])));
        }
        assert(row@.take(k as int) =~= row@);
        assert(edges_upto(lk, (c + 1) as nat) == edges_upto(lk, c as nat) + lk[c as int].map_values(
            |p: usize| (c, p),
        ));
        c = c + 1;
    }
    r
}


/// The links of an acyclic set: some height strictly grows from each child
/// to each of its parents.
pub open spec fn acyclic(links: Seq<Seq<usize>>) -> bool {
    exists|h: spec_fn(usize) -> nat| #[trigger] ranked_by(links, h)
}

/// `h` strictly grows from each child to each of its parents.
pub open spec fn ranked_by(links: Seq<Seq<usize>>, h: spec_fn(usize) -> nat) -> bool {
    forall|c: int, k: int|
        0 <= c < links.len() && 0 <= k < links[c].len() ==> h(c as usize) < h(
            #[trigger] links[c][k],
        )
}

proof fn lemma_is_next_unique(links: Seq<Seq<usize>>, ts: Seq<i64>, done: Seq<usize>, a: usize, b: usize)
    requires
        is_next(links, ts, done, a),
        is_next(links, ts, done, b),
    ensures
        a == b,
{
    if a != b {
        assert(eligible(links, done, b));
        assert(eligible(links, done, a));
        assert(precedes(ts, a, b));
        assert(precedes(ts, b, a));
    }
}

/// A visitation order lists every commit of the set exactly once.
pub proof fn lemma_visitation_is_permutation(links: Seq<Seq<usize>>, ts: Seq<i64>, order: Seq<usize>)
    requires
        is_visitation_order(links, ts, order),
        links.len() <= usize::MAX,
    ensures
        is_permutation(order, links.len()),
{
    let m = choose|m: int| ordered_until(links, ts, order, m);
    let n = links.len();
    let prefix = order.take(m);
    let rest = order.skip(m);
    lemma_unvisited_members(prefix, n);
    assert(order =~= prefix + rest);
    assert forall|k: int| 0 <= k < order.len() implies (#[trigger] order[k] as int) < n by {
        if k < m {
            assert(is_next(links, ts, order.take(k), order[k]));
        } else {
            assert(rest[k - m] == order[k]);
        }
    }
    assert forall|i: int, k: int| 0 <= i < k < order.len() implies order[i] != order[k] by {
        if k < m {
            assert(is_next(links, ts, order.take(k), order[k]));
            assert(order.take(k)[i] == order[i]);
        } else if i < m {
            assert(rest[k - m] == order[k]);
            assert(prefix[i] == order[i]);
        } else {
            assert(rest[k - m] == order[k]);
            assert(rest[i - m] == order[i]);
        }
    }
}

/// Two visitation orders of the same set agree: the order is a function of
/// the links and timestamps alone.
pub proof fn lemma_visitation_order_unique(
    links: Seq<Seq<usize>>,
    ts: Seq<i64>,
    o1: Seq<usize>,
    o2: Seq<usize>,
)
    requires
        is_visitation_order(links, ts, o1),
        is_visitation_order(links, ts, o2),
    ensures
        o1 == o2,
{
    let m1 = choose|m: int| ordered_until(links, ts, o1, m);
    let m2 = choose|m: int| ordered_until(links, ts, o2, m);
    let lo = if m1 <= m2 { m1 } else { m2 };
    assert forall|k: int| 0 <= k <= lo implies #[trigger] o1.take(k) == o2.take(k) by {
        lemma_prefixes_agree(links, ts, o1, o2, m1, m2, k);
    }
    if m1 < m2 {
        assert(is_next(links, ts, o2.take(m1), o2[m1]));
        assert(o1.take(m1) == o2.take(m1));
        assert(!eligible(links, o1.take(m1), o2[m1]));
    }
    if m2 < m1 {
        assert(is_next(links, ts, o1.take(m2), o1[m2]));
        assert(o1.take(m2) == o2.take(m2));
        assert(!eligible(links, o2.take(m2), o1[m2]));
    }
    assert(m1 == m2);
    assert(o1.take(m1) == o2.take(m1));
    assert(o1 =~= o1.take(m1) + o1.skip(m1));
    assert(o2 =~= o2.take(m1) + o2.skip(m1));
}

proof fn lemma_prefixes_agree(
    links: Seq<Seq<usize>>,
    ts: Seq<i64>,
    o1: Seq<usize>,
    o2: Seq<usize>,
    m1: int,
    m2: int,
    k: int,
)
    requires
        ordered_until(links, ts, o1, m1),
        ordered_until(links, ts, o2, m2),
        0 <= k <= m1,
        k <= m2,
    ensures
        o1.take(k) == o2.take(k),
    decreases k,
{
    if k > 0 {
        lemma_prefixes_agree(links, ts, o1, o2, m1, m2, k - 1);
        assert(is_next(links, ts, o1.take(k - 1), o1[k - 1]));
        assert(is_next(links, ts, o2.take(k - 1), o2[k - 1]));
        lemma_is_next_unique(links, ts, o1.take(k - 1), o1[k - 1], o2[k - 1]);
        assert(o1.take(k) =~= o1.take(k - 1).push(o1[k - 1]));
        assert(o2.take(k) =~= o2.take(k - 1).push(o2[k - 1]));
    }
}

proof fn lemma_pending_witness(links: Seq<Seq<usize>>, done: Seq<usize>, j: usize, n: nat) -> (c: usize)
    requires
        pending_upto(links, done, j, n) > 0,
        n <= links.len() <= usize::MAX,
    ensures
        (c as int) < n,
        !done.contains(c),
        links[c as int].contains(j),
    decreases n,
{
    if pending_upto(links, done, j, (n - 1) as nat) > 0 {
        lemma_pending_witness(links, done, j, (n - 1) as nat)
    } else {
        let c = (n - 1) as usize;
        lemma_count_witness(links[c as int], j);
        c
    }
}

proof fn lemma_count_witness(s: Seq<usize>, j: usize)
    requires
        count_in(s, j) > 0,
    ensures
        s.contains(j),
    decreases s.len(),
{
    if s.last() == j {
        assert(s[s.len() - 1] == j);
    } else {
        lemma_count_witness(s.drop_last(), j);
        let t = choose|t: int| 0 <= t < s.drop_last().len() && s.drop_last()[t] == j;
        assert(s[t] == j);
    }
}

/// In an acyclic set, from any commit not yet emitted an eligible one is
/// reached by following not-yet-emitted children.
proof fn lemma_find_eligible(
    links: Seq<Seq<usize>>,
    done: Seq<usize>,
    h: spec_fn(usize) -> nat,
    x: usize,
) -> (y: usize)
    requires
        links_wf(links),
        links.len() <= usize::MAX,
        ranked_by(links, h),
        (x as int) < links.len(),
        !done.contains(x),
    ensures
        eligible(links, done, y),
    decreases h(x),
{
    if waiting(links, done, x) == 0 {
        x
    } else {
        let c = lemma_pending_witness(links, done, x, links.len());
        let k = choose|k: int| 0 <= k < links[c as int].len() && links[c as int][k] == x;
        assert(h(c) < h(links[c as int][k]));
        lemma_find_eligible(links, done, h, c)
    }
}

/// In an acyclic set every parent is emitted after each in-set child that
/// names it.
pub proof fn lemma_parents_follow_children(links: Seq<Seq<usize>>, ts: Seq<i64>, order: Seq<usize>)
    requires
        links_wf(links),
        links.len() <= usize::MAX,
        is_visitation_order(links, ts, order),
        acyclic(links),
    ensures
        forall|c: int, k: int, i: int, j: int|
            #![trigger order[i], order[j], links[c][k]]
            0 <= c < links.len() && 0 <= k < links[c].len() && 0 <= i < order.len() && 0 <= j
                < order.len() && order[i] == c && order[j] == links[c][k] ==> i < j,
{
    let n = links.len();
    let m = choose|m: int| ordered_until(links, ts, order, m);
    let h = choose|h: spec_fn(usize) -> nat| ranked_by(links, h);
    lemma_visitation_is_permutation(links, ts, order);
    if m < n {
        let prefix = order.take(m);
        assert(prefix.no_duplicates()) by {
            assert forall|a: int, b: int| 0 <= a < b < prefix.len() implies prefix[a] != prefix[b] by {
                assert(order[a] != order[b]);
            }
        }
        lemma_distinct_bounded(prefix, n);
        lemma_unvisited_members(prefix, n);
        let x = unvisited_upto(prefix, n)[0];
        let y = lemma_find_eligible(links, prefix, h, x);
        assert(!eligible(links, order.take(m), y));
    }
    assert forall|c: int, k: int, i: int, j: int|
        #![trigger order[i], order[j], links[c][k]]
        0 <= c < links.len() && 0 <= k < links[c].len() && 0 <= i < order.len() && 0 <= j
            < order.len() && order[i] == c && order[j] == links[c][k] implies i < j by {
        let p = links[c][k];
        assert(is_next(links, ts, order.take(j), order[j]));
        lemma_no_pending_children_done(links, order.take(j), p, c as usize, k);
        let t = choose|t: int| 0 <= t < order.take(j).len() && order.take(j)[t] == c as usize;
        assert(order[t] == order[i]);
    }
}

/// No commit of the set names `a` as a parent.
pub open spec fn is_tip(links: Seq<Seq<usize>>, a: usize) -> bool {
    forall|c: int, k: int| 0 <= c < links.len() && 0 <= k < links[c].len() ==> #[trigger] links[c][k] != a
}

proof fn lemma_tip_not_waiting(links: Seq<Seq<usize>>, done: Seq<usize>, a: usize, n: nat)
    requires
        n <= links.len(),
        is_tip(links, a),
    ensures
        pending_upto(links, done, a, n) == 0,
    decreases n,
{
    if n > 0 {
        lemma_tip_not_waiting(links, done, a, (n - 1) as nat);
        let c = n - 1;
        if count_in(links[c], a) > 0 {
            lemma_count_witness(links[c], a);
            let k = choose|k: int| 0 <= k < links[c].len() && links[c][k] == a;
            assert(links[c][k] != a);
        }
    }
}

/// Of two tips, the one with the smaller (timestamp, position) is emitted
/// first: both are eligible from the start and stay eligible until emitted.
pub proof fn lemma_earlier_tip_first(
    links: Seq<Seq<usize>>,
    ts: Seq<i64>,
    order: Seq<usize>,
    a: usize,
    b: usize,
)
    requires
        links.len() <= usize::MAX,
        is_visitation_order(links, ts, order),
        (a as int) < links.len(),
        (b as int) < links.len(),
        is_tip(links, a),
        is_tip(links, b),
        precedes(ts, a, b),
    ensures
        forall|i: int, j: int|
            0 <= i < order.len() && 0 <= j < order.len() && #[trigger] order[i] == a && #[trigger] order[j]
                == b ==> i < j,
{
    let n = links.len();
    let m = choose|m: int| ordered_until(links, ts, order, m);
    lemma_visitation_is_permutation(links, ts, order);
    lemma_unvisited_members(order.take(m), n);
    assert forall|i: int, j: int|
        0 <= i < order.len() && 0 <= j < order.len() && #[trigger] order[i] == a && #[trigger] order[j]
            == b implies i < j by {
        if j >= m {
            assert(order.skip(m)[j - m] == b);
            lemma_tip_not_waiting(links, order.take(m), b, n);
            assert(eligible(links, order.take(m), b));
        }
        assert(is_next(links, ts, order.take(j), order[j]));
        lemma_tip_not_waiting(links, order.take(j), a, n);
        if !order.take(j).contains(a) {
            assert(eligible(links, order.take(j), a));
            assert(precedes(ts, b, a));
        }
        let t = choose|t: int| 0 <= t < order.take(j).len() && order.take(j)[t] == a;
        assert(order[t] == order[i]);
    }
}

} // verus!
