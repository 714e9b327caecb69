//! Per-repository fetch cooldown: a fetch is skipped when the same
//! repository was fetched less than a minute earlier.

use vstd::prelude::*;

verus! {

/// Minimum time between two fetches of one repository, in milliseconds.
pub const FETCH_COOLDOWN_MS: u64 = 60_000;

/// The time of the last fetch of each repository, by repository key.
pub struct FetchTracker {
    entries: Vec<(String, u64)>,
}

/// The map that a list of (key, time) entries stands for.
pub open spec fn entries_map(s: Seq<(String, u64)>) -> Map<Seq<char>, u64>
    decreases s.len(),
{
    if s.len() == 0 {
        Map::empty()
    } else {
        entries_map(s.drop_last()).insert(s.last().0@, s.last().1)
    }
}

/// No key occurs twice.
pub open spec fn keys_unique(s: Seq<(String, u64)>) -> bool {
    forall|i: int, j: int| 0 <= i < j < s.len() ==> (#[trigger] s[i]).0@ != (#[trigger] s[j]).0@
}

/// A fetch at `now` falls within the cooldown of one at `last` (a clock that
/// went backwards counts as no time elapsed).
pub open spec fn within_cooldown(last: u64, now: u64) -> bool {
    (now as int) < last + FETCH_COOLDOWN_MS
}

impl View for FetchTracker {
    type V = Map<Seq<char>, u64>;

    closed spec fn view(&self) -> Map<Seq<char>, u64> {
        entries_map(self.entries@)
    }
}

proof fn lemma_entries_absent(s: Seq<(String, u64)>, k: Seq<char>)
    requires
        forall|i: int| 0 <= i < s.len() ==> (#[trigger] s[i]).0@ != k,
    ensures
        !entries_map(s).contains_key(k),
    decreases s.len(),
{
    if s.len() > 0 {
        assert(s.last() == s[s.len() - 1]);
        assert forall|i: int| 0 <= i < s.drop_last().len() implies (#[trigger] s.drop_last()[i]).0@
            != k by {
            assert(s.drop_last()[i] == s[i]);
        }
        lemma_entries_absent(s.drop_last(), k);
    }
}

proof fn lemma_entries_lookup(s: Seq<(String, u64)>, i: int)
    requires
        keys_unique(s),
        0 <= i < s.len(),
    ensures
        entries_map(s).contains_key(s[i].0@),
        entries_map(s)[s[i].0@] == s[i].1,
    decreases s.len(),
{
    if i < s.len() - 1 {
        assert(s.drop_last()[i] == s[i]);
        assert(keys_unique(s.drop_last())) by {
            assert forall|a: int, b: int| 0 <= a < b < s.drop_last().len() implies (
            #[trigger] s.drop_last()[a]).0@ != (#[trigger] s.drop_last()[b]).0@ by {
                assert(s.drop_last()[a] == s[a]);
                assert(s.drop_last()[b] == s[b]);
            }
        }
        lemma_entries_lookup(s.drop_last(), i);
        assert(s[i].0@ != s[s.len() - 1].0@);
    }
}

proof fn lemma_entries_update(s: Seq<(String, u64)>, i: int, k: String, v: u64)
    requires
        keys_unique(s),
        0 <= i < s.len(),
        k@ == s[i].0@,
    ensures
        entries_map(s.update(i, (k, v))) == entries_map(s).insert(k@, v),
        keys_unique(s.update(i, (k, v))),
    decreases s.len(),
{
    let t = s.update(i, (k, v));
    assert(keys_unique(t)) by {
        assert forall|a: int, b: int| 0 <= a < b < t.len() implies (#[trigger] t[a]).0@ != (
        #[trigger] t[b]).0@ by {
            assert(s[a].0@ != s[b].0@);
        }
    }
    let d = s.drop_last();
    assert(keys_unique(d)) by {
        assert forall|a: int, b: int| 0 <= a < b < d.len() implies (#[trigger] d[a]).0@ != (
        #[trigger] d[b]).0@ by {
            assert(d[a] == s[a]);
            assert(d[b] == s[b]);
        }
    }
    if i == s.len() - 1 {
        assert(t.drop_last() =~= d);
        assert(entries_map(t) =~= entries_map(s).insert(k@, v));
    } else {
        assert(d[i] == s[i]);
        lemma_entries_update(d, i, k, v);
        assert(t.drop_last() =~= d.update(i, (k, v)));
        assert(s.last().0@ != k@) by {
            assert(s[s.len() - 1].0@ != s[i].0@);
        }
        assert(entries_map(t) =~= entries_map(s).insert(k@, v));
    }
}

impl FetchTracker {
    /// Keys are unique.
    pub closed spec fn wf(&self) -> bool {
        keys_unique(self.entries@)
    }

    /// A tracker that has seen no fetch.
    pub fn new() -> (r: FetchTracker)
        ensures
            r.wf(),
            r@ == Map::<Seq<char>, u64>::empty(),
    {
        FetchTracker { entries: Vec::new() }
    }

    /// Whether to fetch `repo_key` at time `now_ms`: not when its last fetch
    /// is within the cooldown. A fetch that goes ahead is recorded.
    pub fn should_fetch(&mut self, repo_key: &str, now_ms: u64) -> (r: bool)
        requires
            old(self).wf(),
        ensures
            final(self).wf(),
            r == !(old(self)@.contains_key(repo_key@) && within_cooldown(
                old(self)@[repo_key@],
                now_ms,
            )),
            r ==> final(self)@ == old(self)@.insert(repo_key@, now_ms),
            !r ==> final(self)@ == old(self)@,
    {
        let key = String::from_str(repo_key);
        let mut i: usize = 0;
        while i < self.entries.len()
            invariant
                i <= self.entries.len(),
                key@ == repo_key@,
                keys_unique(self.entries@),
                self.entries@ == old(self).entries@,
                forall|j: int| 0 <= j < i ==> (#[trigger] self.entries@[j]).0@ != key@,
            decreases self.entries.len() - i,
        {
            if self.entries[i].0 == key {
                proof {
                    lemma_entries_lookup(self.entries@, i as int);
                }
                let last = self.entries[i].1;
                if (now_ms as u128) < last as u128 + FETCH_COOLDOWN_MS as u128 {
                    return false;
                }
                proof {
                    lemma_entries_update(self.entries@, i as int, key, now_ms);
                }
                self.entries.set(i, (key, now_ms));
                return true;
            }
            i = i + 1;
        }
        proof {
            lemma_entries_absent(self.entries@, key@);
        }
        let ghost before = self.entries@;
        assert(forall|j: int| 0 <= j < before.len() ==> (#[trigger] before[j]).0@ != key@);
        self.entries.push((key, now_ms));
        proof {
            assert(self.entries@.drop_last() =~= before);
            assert forall|a: int, b: int| 0 <= a < b < self.entries@.len() implies (
            #[trigger] self.entries@[a]).0@ != (#[trigger] self.entries@[b]).0@ by {
                if b == before.len() {
                    assert(self.entries@[a] == before[a]);
                    assert(before[a].0@ != key@);
                    assert(self.entries@[b].0@ == key@);
                } else {
                    assert(self.entries@[a] == before[a]);
                    assert(self.entries@[b] == before[b]);
                }
            }
        }
        true
    }
}

} // verus!
