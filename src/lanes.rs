//! Lane assignment: walks the visitation order (children first) and gives
//! each commit a rendering column. A commit takes the lane of its first
//! listed parent that already has one (only possible after a cycle); else
//! the lowest slot a placed child kept for it; else the lowest free slot;
//! else a new one. The slots still held by its placed parents are then
//! freed, and its own slot is kept for its first in-set parent, which
//! continues the line in that column.
use crate::schedule::{
    is_permutation, is_visitation_order, lemma_parents_follow_children, lemma_permutation_covers,
    lemma_visitation_is_permutation, links_wf, ranked_by,
};
use vstd::prelude::*;

verus! {

/// The lowest slot of `active`, at or after `i`, that holds `v`.
pub open spec fn lowest_slot_from(active: Seq<Option<usize>>, v: Option<usize>, i: int) -> Option<
    usize,
>
    decreases active.len() - i,
{
    if i < 0 || i >= active.len() {
        None
    } else if active[i] == v {
        Some(i as usize)
    } else {
        lowest_slot_from(active, v, i + 1)
    }
}

/// The lane of the first parent in `ps`, in listed order, that has one.
pub open spec fn first_assigned_lane(lane_of: Seq<Option<usize>>, ps: Seq<usize>) -> Option<usize>
    decreases ps.len(),
{
    if ps.len() == 0 {
        None
    } else {
        match lane_of[ps[0] as int] {
            Some(l) => Some(l),
            None => first_assigned_lane(lane_of, ps.skip(1)),
        }
    }
}

/// The lane commit `ci`, with parents `ps`, takes: the lane of its first
/// listed parent that has one; else the lowest slot a placed child kept for
/// it; else the lowest empty slot; else a new slot at the end.
pub open spec fn chosen_lane(
    active: Seq<Option<usize>>,
    lane_of: Seq<Option<usize>>,
    ps: Seq<usize>,
    ci: usize,
) -> usize {
    match first_assigned_lane(lane_of, ps) {
        Some(l) => l,
        None => match lowest_slot_from(active, Some(ci), 0) {
            Some(l) => l,
            None => match lowest_slot_from(active, None, 0) {
                Some(l) => l,
                None => active.len() as usize,
            },
        },
    }
}

/// Empties the slot of every parent in `ps` that has a lane and still holds
/// its slot.
pub open spec fn release_parents(
    active: Seq<Option<usize>>,
    lane_of: Seq<Option<usize>>,
    ps: Seq<usize>,
) -> Seq<Option<usize>>
    decreases ps.len(),
{
    if ps.len() == 0 {
        active
    } else {
        let a = release_parents(active, lane_of, ps.drop_last());
        let p = ps.last();
        match lane_of[p as int] {
            Some(l) => if (l as int) < a.len() && a[l as int] == Some(p) {
                a.update(l as int, None)
            } else {
                a
            },
            None => a,
        }
    }
}

/// Empties every slot kept for `ci`: the lines of its children end at it.
pub open spec fn release_kept(active: Seq<Option<usize>>, ci: usize) -> Seq<Option<usize>> {
    Seq::new(
        active.len(),
        |i: int|
            if active[i] == Some(ci) {
                None
            } else {
                active[i]
            },
    )
}

/// What the slot of a just-placed commit `ci` holds: its first in-set
/// parent, kept for it while that parent is not placed; else `ci` itself,
/// and the line ends there with its slot still taken.
pub open spec fn slot_after(lane_of: Seq<Option<usize>>, ps: Seq<usize>, ci: usize) -> Option<
    usize,
> {
    if ps.len() > 0 && lane_of[ps[0] as int] is None {
        Some(ps[0])
    } else {
        Some(ci)
    }
}

/// The allocator's state after placing commit `ci`: the slots and the lane
/// of each commit. A slot holds the commit its line continues to, or the
/// commit it ended at, or nothing when it is free.
pub open spec fn lane_step(
    links: Seq<Seq<usize>>,
    st: (Seq<Option<usize>>, Seq<Option<usize>>),
    ci: usize,
) -> (Seq<Option<usize>>, Seq<Option<usize>>) {
    let ps = links[ci as int];
    let lane = chosen_lane(st.0, st.1, ps, ci);
    let lane_of = st.1.update(ci as int, Some(lane));
    let freed = release_parents(release_kept(st.0, ci), st.1, ps);
    let held = slot_after(lane_of, ps, ci);
    let active = if lane as int == st.0.len() {
        freed.push(held)
    } else {
        freed.update(lane as int, held)
    };
    (active, lane_of)
}

/// The allocator's state after the first `k` commits of `order`.
pub open spec fn lanes_after(links: Seq<Seq<usize>>, order: Seq<usize>, k: nat) -> (
    Seq<Option<usize>>,
    Seq<Option<usize>>,
)
    decreases k,
{
    if k == 0 {
        (Seq::empty(), Seq::new(links.len(), |i: int| None))
    } else {
        lane_step(links, lanes_after(links, order, (k - 1) as nat), order[k - 1])
    }
}

/// The lane of each commit once the whole order has been placed.
#[verifier::opaque]
pub open spec fn lane_table(links: Seq<Seq<usize>>, order: Seq<usize>) -> Seq<usize> {
    let lane_of = lanes_after(links, order, order.len()).1;
    Seq::new(
        lane_of.len(),
        |i: int|
            match lane_of[i] {
                Some(l) => l,
                None => 0,
            },
    )
}

/// The state's lanes name open slots, and no more slots than commits placed.
pub open spec fn state_wf(st: (Seq<Option<usize>>, Seq<Option<usize>>), n: nat, k: nat) -> bool {
    &&& st.1.len() == n
    &&& st.0.len() <= k
    &&& forall|i: int| 0 <= i < n && #[trigger] st.1[i] is Some ==> (st.1[i]->0 as int) < st.0.len()
}

proof fn lemma_lowest_slot_bounded(active: Seq<Option<usize>>, v: Option<usize>, i: int)
    requires
        active.len() <= usize::MAX,
    ensures
        lowest_slot_from(active, v, i) matches Some(l) ==> (l as int) < active.len() && active[l as int]
            == v,
    decreases active.len() - i,
{
    if 0 <= i < active.len() && active[i] != v {
        lemma_lowest_slot_bounded(active, v, i + 1);
    }
}

proof fn lemma_release_parents_len(
    active: Seq<Option<usize>>,
    lane_of: Seq<Option<usize>>,
    ps: Seq<usize>,
)
    ensures
        release_parents(active, lane_of, ps).len() == active.len(),
    decreases ps.len(),
{
    if ps.len() > 0 {
        lemma_release_parents_len(active, lane_of, ps.drop_last());
    }
}

proof fn lemma_first_assigned_bounded(lane_of: Seq<Option<usize>>, ps: Seq<usize>, bound: int)
    requires
        forall|k: int| 0 <= k < ps.len() ==> (#[trigger] ps[k] as int) < lane_of.len(),
        forall|i: int|
            0 <= i < lane_of.len() && #[trigger] lane_of[i] is Some ==> (lane_of[i]->0 as int)
                < bound,
    ensures
        first_assigned_lane(lane_of, ps) matches Some(l) ==> (l as int) < bound,
    decreases ps.len(),
{
    if ps.len() > 0 {
        assert(ps[0] == ps[0]);
        lemma_first_assigned_bounded(lane_of, ps.skip(1), bound);
    }
}

/// One placement keeps the state well formed and opens at most one slot.
pub proof fn lemma_lane_step_wf(
    links: Seq<Seq<usize>>,
    st: (Seq<Option<usize>>, Seq<Option<usize>>),
    ci: usize,
    k: nat,
)
    requires
        links_wf(links),
        (ci as int) < links.len(),
        state_wf(st, links.len(), k),
        st.0.len() < usize::MAX,
    ensures
        state_wf(lane_step(links, st, ci), links.len(), k + 1),
        lane_step(links, st, ci).1[ci as int] is Some,
        forall|i: int|
            0 <= i < links.len() && #[trigger] st.1[i] is Some ==> lane_step(links, st, ci).1[i]
                is Some,
{
    lemma_lowest_slot_bounded(st.0, Some(ci), 0);
    lemma_lowest_slot_bounded(st.0, None, 0);
    lemma_first_assigned_bounded(st.1, links[ci as int], st.0.len() as int);
    lemma_release_parents_len(release_kept(st.0, ci), st.1, links[ci as int]);
    let nx = lane_step(links, st, ci);
    assert forall|i: int| 0 <= i < links.len() && #[trigger] nx.1[i] is Some implies (nx.1[i]->0 as int)
        < nx.0.len() by {
        if i != ci {
            assert(st.1[i] is Some);
        }
    }
}

/// Places commit `ci`: picks its lane, frees the slots kept for it and the
/// slots its placed parents still hold, and keeps its own slot for its first
/// in-set parent.
fn place(
    links: &Vec<Vec<usize>>,
    active: &mut Vec<Option<usize>>,
    lane_of: &mut Vec<Option<usize>>,
    ci: usize,
    k: Ghost<nat>,
)
    requires
        links_wf(links.deep_view()),
        (ci as int) < links.len(),
        state_wf((old(active)@, old(lane_of)@), links.len() as nat, k@),
        old(active).len() < usize::MAX,
    ensures
        (final(active)@, final(lane_of)@) == lane_step(
            links.deep_view(),
            (old(active)@, old(lane_of)@),
            ci,
        ),
{
    let ghost lk = links.deep_view();
    let ghost st = (active@, lane_of@);
    assert(lk.len() == links.len());
    let ps = &links[ci];
    assert(lk[ci as int] =~= ps@);
    proof {
        lemma_lowest_slot_bounded(st.0, Some(ci), 0);
        lemma_lowest_slot_bounded(st.0, None, 0);
        lemma_first_assigned_bounded(st.1, ps@, st.0.len() as int);
    }
    let mut chosen: Option<usize> = None;
    let mut q: usize = 0;
    assert(ps@.skip(0) =~= ps@);
    while q < ps.len() && chosen.is_none()
        invariant
            links_wf(lk),
            lk.len() == lane_of.len(),
            ps@ == lk[ci as int],
            (ci as int) < lk.len(),
            q <= ps.len(),
            chosen is None ==> first_assigned_lane(lane_of@, ps@) == first_assigned_lane(
                lane_of@,
                ps@.skip(q as int),
            ),
            chosen is Some ==> chosen == first_assigned_lane(lane_of@, ps@),
        decreases ps.len() - q,
    {
        let p = ps[q];
        assert(lk[ci as int][q as int] == p);
        assert(ps@.skip(q as int)[0] == p);
        assert(ps@.skip(q as int).skip(1) =~= ps@.skip(q + 1));
        match lane_of[p] {
            Some(l) => {
                chosen = Some(l);
            },
            None => {},
        }
        q = q + 1;
    }
    if chosen.is_none() {
        assert(ps@.skip(q as int).len() == 0);
        let mut i: usize = 0;
        while i < active.len() && chosen.is_none()
            invariant
                i <= active.len(),
                chosen is None ==> lowest_slot_from(active@, Some(ci), 0) == lowest_slot_from(
                    active@,
                    Some(ci),
                    i as int,
                ),
                chosen is Some ==> chosen == lowest_slot_from(active@, Some(ci), 0),
            decreases active.len() - i,
        {
            match active[i] {
                Some(x) => {
                    if x == ci {
                        chosen = Some(i);
                    }
                },
                None => {},
            }
            i = i + 1;
        }
        if chosen.is_none() {
            let mut i: usize = 0;
            while i < active.len() && chosen.is_none()
                invariant
                    i <= active.len(),
                    chosen is None ==> lowest_slot_from(active@, None, 0) == lowest_slot_from(
                        active@,
                        None,
                        i as int,
                    ),
                    chosen is Some ==> chosen == lowest_slot_from(active@, None, 0),
                decreases active.len() - i,
            {
                if active[i].is_none() {
                    chosen = Some(i);
                }
                i = i + 1;
            }
        }
    }
    let lane = match chosen {
        Some(l) => l,
        None => active.len(),
    };
    assert(lane == chosen_lane(st.0, st.1, ps@, ci));
    let mut i: usize = 0;
    while i < active.len()
        invariant
            i <= active.len(),
            active.len() == st.0.len(),
            forall|j: int| 0 <= j < i ==> #[trigger] active@[j] == release_kept(st.0, ci)[j],
            forall|j: int| i <= j < active.len() ==> #[trigger] active@[j] == st.0[j],
        decreases active.len() - i,
    {
        match active[i] {
            Some(x) => {
                if x == ci {
                    active.set(i, None);
                }
            },
            None => {},
        }
        i = i + 1;
    }
    assert(active@ =~= release_kept(st.0, ci));
    let ghost kept_freed = active@;
    let mut q: usize = 0;
    while q < ps.len()
        invariant
            links_wf(lk),
            lk.len() == lane_of.len(),
            lane_of@ == st.1,
            ps@ == lk[ci as int],
            (ci as int) < lk.len(),
            q <= ps.len(),
            active@ == release_parents(kept_freed, st.1, ps@.take(q as int)),
        decreases ps.len() - q,
    {
        let p = ps[q];
        assert(lk[ci as int][q as int] == p);
        assert(ps@.take(q + 1).drop_last() =~= ps@.take(q as int));
        assert(ps@.take(q + 1).last() == p);
        match lane_of[p] {
            Some(l) => {
                if l < active.len() {
                    match active[l] {
                        Some(x) => {
                            if x == p {
                                active.set(l, None);
                            }
                        },
                        None => {},
                    }
                }
            },
            None => {},
        }
        q = q + 1;
    }
    assert(ps@.take(q as int) =~= ps@);
    proof {
        lemma_release_parents_len(kept_freed, st.1, ps@);
    }
    lane_of.set(ci, Some(lane));
    let held = if ps.len() > 0 && lane_of[ps[0]].is_none() {
        Some(ps[0])
    } else {
        Some(ci)
    };
    assert(held == slot_after(lane_of@, ps@, ci));
    if lane == active.len() {
        active.push(held);
    } else {
        active.set(lane, held);
    }
}

/// The lane of every commit, placing the commits in `order`.
pub fn assign_lanes(links: &Vec<Vec<usize>>, order: &Vec<usize>) -> (r: Vec<usize>)
    requires
        links_wf(links.deep_view()),
        is_permutation(order@, links.len() as nat),
    ensures
        r.len() == links.len(),
        r@ == lane_table(links.deep_view(), order@),
        forall|i: int| 0 <= i < links.len() ==> (#[trigger] r[i] as int) < links.len(),
{
    let ghost lk = links.deep_view();
    let n = links.len();
    assert(lk.len() == n);
    let mut active: Vec<Option<usize>> = Vec::new();
    let mut lane_of: Vec<Option<usize>> = Vec::new();
    let mut i: usize = 0;
    while i < n
        invariant
            i <= n,
            lane_of.len() == i,
            forall|j: int| 0 <= j < i ==> #[trigger] lane_of@[j] is None,
        decreases n - i,
    {
        lane_of.push(None);
        i = i + 1;
    }
    assert(lane_of@ =~= Seq::new(lk.len(), |i: int| None::<usize>));
    assert(active@ =~= Seq::<Option<usize>>::empty());
    let mut k: usize = 0;
    while k < n
        invariant
            n == links.len(),
            lk == links.deep_view(),
            lk.len() == n,
            links_wf(lk),
            is_permutation(order@, n as nat),
            k <= n,
            (active@, lane_of@) == lanes_after(lk, order@, k as nat),
            state_wf((active@, lane_of@), n as nat, k as nat),
            forall|t: int| 0 <= t < k ==> #[trigger] lane_of@[order@[t] as int] is Some,
        decreases n - k,
    {
        let ci = order[k];
        let ghost st = (active@, lane_of@);
        proof {
            lemma_lane_step_wf(lk, st, ci, k as nat);
        }
        place(links, &mut active, &mut lane_of, ci, Ghost(k as nat));
        k = k + 1;
    }
    proof {
        assert forall|c: int| 0 <= c < n implies #[trigger] lane_of@[c] is Some by {
            lemma_permutation_covers(order@, n as nat, c as usize);
        }
    }
    let mut r: Vec<usize> = Vec::new();
    let mut c: usize = 0;
    while c < n
        invariant
            c <= n,
            lane_of.len() == n,
            r.len() == c,
            forall|j: int| 0 <= j < n ==> #[trigger] lane_of@[j] is Some,
            forall|j: int| 0 <= j < c ==> Some(#[trigger] r[j]) == lane_of@[j],
        decreases n - c,
    {
        match lane_of[c] {
            Some(l) => r.push(l),
            None => r.push(0),
        }
        c = c + 1;
    }
    reveal(lane_table);
    assert(r@ =~= lane_table(lk, order@));
    r
}

/// A straight chain: commit 0 has no in-set parent and each later commit's
/// only parent is the one before it.
pub open spec fn is_chain(links: Seq<Seq<usize>>) -> bool {
    &&& links.len() > 0 ==> links[0].len() == 0
    &&& forall|i: int| 0 < i < links.len() ==> #[trigger] links[i] == seq![(i - 1) as usize]
}

spec fn position_of(order: Seq<usize>, c: usize) -> int {
    choose|i: int| 0 <= i < order.len() && order[i] == c
}

proof fn lemma_chain_positions(links: Seq<Seq<usize>>, order: Seq<usize>, c: int)
    requires
        links.len() <= usize::MAX,
        is_chain(links),
        is_permutation(order, links.len()),
        forall|a: int|
            0 < a < links.len() ==> #[trigger] position_of(order, a as usize) < position_of(
                order,
                (a - 1) as usize,
            ),
        forall|a: int|
            0 <= a < links.len() ==> 0 <= #[trigger] position_of(order, a as usize) < order.len()
                && order[position_of(order, a as usize)] == a,
        0 <= c < links.len(),
    ensures
        position_of(order, c as usize) <= links.len() - 1 - c,
        position_of(order, (links.len() - 1 - c) as usize) >= c,
    decreases c,
{
    let n = links.len() as int;
    if c > 0 {
        lemma_chain_positions(links, order, c - 1);
        assert(position_of(order, c as usize) < position_of(order, (c - 1) as usize));
        let top = n - 1 - c;
        assert(0 <= position_of(order, (top + 1) as usize) < order.len());
        assert(position_of(order, (top + 1) as usize) < position_of(order, top as usize));
    }
}

/// The visitation order of a chain lists it newest first.
pub proof fn lemma_chain_order(links: Seq<Seq<usize>>, ts: Seq<i64>, order: Seq<usize>)
    requires
        links.len() <= usize::MAX,
        is_chain(links),
        is_visitation_order(links, ts, order),
    ensures
        forall|t: int| 0 <= t < links.len() ==> #[trigger] order[t] == links.len() - 1 - t,
{
    let n = links.len();
    assert(links_wf(links)) by {
        assert forall|i: int, k: int| 0 <= i < links.len() && 0 <= k < links[i].len() implies (
        #[trigger] links[i][k] as int) < links.len() by {
            if i > 0 {
                assert(links[i] == seq![(i - 1) as usize]);
            }
        }
    }
    let h = |i: usize|
        if (i as int) < n {
            (n - i) as nat
        } else {
            0nat
        };
    assert(ranked_by(links, h)) by {
        assert forall|c: int, k: int| 0 <= c < links.len() && 0 <= k < links[c].len() implies h(
            c as usize,
        ) < h(#[trigger] links[c][k]) by {
            if c > 0 {
                assert(links[c] == seq![(c - 1) as usize]);
            }
        }
    }
    lemma_visitation_is_permutation(links, ts, order);
    lemma_parents_follow_children(links, ts, order);
    assert forall|a: int| 0 <= a < links.len() implies 0 <= #[trigger] position_of(
        order,
        a as usize,
    ) < order.len() && order[position_of(order, a as usize)] == a by {
        lemma_permutation_covers(order, n, a as usize);
    }
    assert forall|a: int| 0 < a < links.len() implies #[trigger] position_of(order, a as usize)
        < position_of(order, (a - 1) as usize) by {
        let i = position_of(order, a as usize);
        let b = position_of(order, (a - 1) as usize);
        assert(0 <= b < order.len() && order[b] == a - 1);
        assert(links[a] == seq![(a - 1) as usize]);
        assert(links[a][0] == a - 1);
        assert(order[i] == a && order[b] == links[a][0]);
    }
    assert forall|t: int| 0 <= t < links.len() implies #[trigger] order[t] == links.len() - 1 - t by {
        let c = n - 1 - t;
        lemma_chain_positions(links, order, c);
        lemma_chain_positions(links, order, t);
        let p = position_of(order, c as usize);
        assert(p == t);
    }
}

proof fn lemma_chain_lanes_after(links: Seq<Seq<usize>>, order: Seq<usize>, t: nat)
    requires
        links.len() <= usize::MAX,
        is_chain(links),
        order.len() == links.len(),
        forall|s: int| 0 <= s < links.len() ==> #[trigger] order[s] == links.len() - 1 - s,
        t <= links.len(),
    ensures
        lanes_after(links, order, t).1.len() == links.len(),
        forall|c: int|
            0 <= c < links.len() ==> #[trigger] lanes_after(links, order, t).1[c] == if c >= links.len()
                - t {
                Some(0usize)
            } else {
                None
            },
        t == 0 ==> lanes_after(links, order, t).0.len() == 0,
        0 < t ==> lanes_after(links, order, t).0 == seq![
            Some(
                if links.len() - t > 0 {
                    (links.len() - t - 1) as usize
                } else {
                    0usize
                },
            ),
        ],
    decreases t,
{
    let n = links.len() as int;
    if t > 0 {
        let u = (t - 1) as nat;
        lemma_chain_lanes_after(links, order, u);
        let st = lanes_after(links, order, u);
        let ci = order[u as int];
        assert(ci == n - 1 - u);
        let ps = links[ci as int];
        if ci > 0 {
            assert(ps == seq![(ci - 1) as usize]);
            assert(st.1[ci - 1] is None);
            assert(ps[0] == ci - 1 && ps.last() == ci - 1);
            assert(ps.skip(1).len() == 0);
            assert(first_assigned_lane(st.1, ps.skip(1)) is None);
            let kf = release_kept(st.0, ci);
            assert(ps.drop_last().len() == 0);
            assert(release_parents(kf, st.1, ps.drop_last()) == kf);
            assert(release_parents(kf, st.1, ps) == kf);
        } else {
            assert(ps.len() == 0);
        }
        assert(first_assigned_lane(st.1, ps) is None);
        if u == 0 {
            assert(chosen_lane(st.0, st.1, ps, ci) == 0);
        } else {
            assert(st.0[0] == Some(ci));
            assert(lowest_slot_from(st.0, Some(ci), 0) == Some(0usize));
            assert(chosen_lane(st.0, st.1, ps, ci) == 0);
            assert(release_kept(st.0, ci) =~= seq![None]);
        }
        let nx = lanes_after(links, order, t);
        assert(nx == lane_step(links, st, ci));
        assert(nx.0 =~= seq![
            Some(
                if n - t > 0 {
                    (n - t - 1) as usize
                } else {
                    0usize
                },
            ),
        ]);
    } else {
        assert(lanes_after(links, order, 0).0 =~= Seq::<Option<usize>>::empty());
    }
}

/// A straight chain of commits, laid out in its visitation order, uses
/// lane 0 only.
pub proof fn lemma_chain_uses_one_lane(links: Seq<Seq<usize>>, ts: Seq<i64>, order: Seq<usize>)
    requires
        links.len() <= usize::MAX,
        is_chain(links),
        is_visitation_order(links, ts, order),
    ensures
        forall|c: int| 0 <= c < links.len() ==> #[trigger] lane_table(links, order)[c] == 0,
{
    lemma_chain_order(links, ts, order);
    lemma_visitation_is_permutation(links, ts, order);
    lemma_chain_lanes_after(links, order, links.len());
    reveal(lane_table);
}

/// `first_assigned_lane` names the lane of the first listed parent that has
/// one: no earlier parent has a lane.
pub proof fn lemma_first_assigned_lane(lane_of: Seq<Option<usize>>, ps: Seq<usize>)
    requires
        forall|k: int| 0 <= k < ps.len() ==> (#[trigger] ps[k] as int) < lane_of.len(),
    ensures
        first_assigned_lane(lane_of, ps) is None <==> forall|k: int|
            0 <= k < ps.len() ==> #[trigger] lane_of[ps[k] as int] is None,
        first_assigned_lane(lane_of, ps) matches Some(l) ==> exists|k: int|
            0 <= k < ps.len() && lane_of[ps[k] as int] == Some(l) && forall|j: int|
                0 <= j < k ==> #[trigger] lane_of[ps[j] as int] is None,
    decreases ps.len(),
{
    if ps.len() > 0 {
        let rest = ps.skip(1);
        assert forall|k: int| 0 <= k < rest.len() implies (#[trigger] rest[k] as int)
            < lane_of.len() by {
            assert(rest[k] == ps[k + 1]);
        }
        lemma_first_assigned_lane(lane_of, rest);
        if lane_of[ps[0] as int] is None {
            if first_assigned_lane(lane_of, ps) is None {
                assert forall|k: int| 0 <= k < ps.len() implies #[trigger] lane_of[ps[k] as int]
                    is None by {
                    if k > 0 {
                        assert(ps[k] == rest[k - 1]);
                    }
                }
            } else {
                let l = first_assigned_lane(lane_of, ps)->0;
                let k = choose|k: int|
                    0 <= k < rest.len() && lane_of[rest[k] as int] == Some(l) && forall|j: int|
                        0 <= j < k ==> #[trigger] lane_of[rest[j] as int] is None;
                assert(ps[k + 1] == rest[k]);
                assert forall|j: int| 0 <= j < k + 1 implies #[trigger] lane_of[ps[j] as int]
                    is None by {
                    if j > 0 {
                        assert(ps[j] == rest[j - 1]);
                    }
                }
            }
        } else {
            assert(lane_of[ps[0] as int] == first_assigned_lane(lane_of, ps));
        }
    }
}

/// A commit placed while one of its listed parents already has a lane (a
/// parent placed first, after a cycle) takes the lane of the first such
/// parent in listed order; parents listed after it are not consulted.
pub proof fn lemma_inherits_first_placed_parent(
    links: Seq<Seq<usize>>,
    st: (Seq<Option<usize>>, Seq<Option<usize>>),
    ci: usize,
    k: int,
)
    requires
        links_wf(links),
        (ci as int) < links.len(),
        st.1.len() == links.len(),
        0 <= k < links[ci as int].len(),
        st.1[links[ci as int][k] as int] is Some,
        forall|j: int| 0 <= j < k ==> #[trigger] st.1[links[ci as int][j] as int] is None,
    ensures
        lane_step(links, st, ci).1[ci as int] == st.1[links[ci as int][k] as int],
{
    let ps = links[ci as int];
    lemma_first_assigned_lane(st.1, ps);
    let l = first_assigned_lane(st.1, ps)->0;
    let k2 = choose|k2: int|
        0 <= k2 < ps.len() && st.1[ps[k2] as int] == Some(l) && forall|j: int|
            0 <= j < k2 ==> #[trigger] st.1[ps[j] as int] is None;
    if k2 < k {
        assert(st.1[ps[k2] as int] is None);
    }
    if k < k2 {
        assert(st.1[ps[k] as int] is None);
    }
}

} // verus!
