//! Commit records, the identifier index and the in-set parent edges.

use indexmap::IndexMap;
use vstd::prelude::*;

verus! {

/// One commit as handed in by the caller. Only `sha`, `parents` and
/// `timestamp` take part in the layout; `author` and `message` pass through.
pub struct CommitRecord {
    pub sha: String,
    pub parents: Vec<String>,
    pub timestamp: i64,
    pub author: Option<String>,
    pub message: Option<String>,
}

#[verifier::external_type_specification]
#[verifier::external_body]
#[verifier::reject_recursive_types(K)]
#[verifier::reject_recursive_types(V)]
#[verifier::reject_recursive_types(S)]
pub struct ExIndexMap<K, V, S>(IndexMap<K, V, S>);

/// What an identifier index holds: each key's view and its position.
pub uninterp spec fn index_entries(m: IndexMap<String, usize>) -> Map<Seq<char>, usize>;

/// Relies on `IndexMap::new`: a new map holds no entry.
#[verifier::external_body]
fn new_index() -> (r: IndexMap<String, usize>)
    ensures
        index_entries(r) =~= Map::empty(),
{
    IndexMap::new()
}

/// Relies on `IndexMap::insert`: the key is bound to the value, replacing any
/// earlier binding of an equal key; other bindings stay.
#[verifier::external_body]
fn index_insert(m: &mut IndexMap<String, usize>, key: String, value: usize)
    ensures
        index_entries(*final(m)) == index_entries(*old(m)).insert(key@, value),
{
    m.insert(key, value);
}

/// Relies on `IndexMap::get`: the value bound to an equal key, if any.
#[verifier::external_body]
fn index_get(m: &IndexMap<String, usize>, key: &String) -> (r: Option<usize>)
    ensures
        r == (if index_entries(*m).contains_key(key@) {
            Some(index_entries(*m)[key@])
        } else {
            None::<usize>
        }),
{
    m.get(key).copied()
}

/// The index over the first `n` records: each identifier bound to the last
/// position among them that carries it.
pub open spec fn index_upto(cs: Seq<CommitRecord>, n: nat) -> Map<Seq<char>, usize>
    decreases n,
{
    if n == 0 {
        Map::empty()
    } else {
        index_upto(cs, (n - 1) as nat).insert(cs[n - 1].sha@, (n - 1) as usize)
    }
}

/// The identifier index of a record list (later records win).
pub open spec fn sha_index(cs: Seq<CommitRecord>) -> Map<Seq<char>, usize> {
    index_upto(cs, cs.len())
}

/// The positions of the parent identifiers that resolve in `idx`, in listed order.
pub open spec fn resolve(idx: Map<Seq<char>, usize>, ps: Seq<String>) -> Seq<usize>
    decreases ps.len(),
{
    if ps.len() == 0 {
        Seq::empty()
    } else {
        let r = resolve(idx, ps.drop_last());
        if idx.contains_key(ps.last()@) {
            r.push(idx[ps.last()@])
        } else {
            r
        }
    }
}

/// The in-set parents of record `i`, in the order its record lists them.
pub open spec fn parents_of(cs: Seq<CommitRecord>, i: int) -> Seq<usize> {
    resolve(sha_index(cs), cs[i].parents@)
}

/// The in-set parent lists of all records, by record position.
pub open spec fn commit_links(cs: Seq<CommitRecord>) -> Seq<Seq<usize>> {
    Seq::new(cs.len(), |i: int| parents_of(cs, i))
}

proof fn lemma_index_upto_bounded(cs: Seq<CommitRecord>, n: nat)
    requires
        n <= cs.len() <= usize::MAX,
    ensures
        forall|k: Seq<char>| #[trigger]
            index_upto(cs, n).contains_key(k) ==> (index_upto(cs, n)[k] as int) < n,
    decreases n,
{
    if n > 0 {
        lemma_index_upto_bounded(cs, (n - 1) as nat);
        let prev = index_upto(cs, (n - 1) as nat);
        assert forall|k: Seq<char>| #[trigger]
            index_upto(cs, n).contains_key(k) implies (index_upto(cs, n)[k] as int) < n by {
            if k != cs[n - 1].sha@ {
                assert(prev.contains_key(k));
            }
        }
    }
}

/// Every position in the index of a record list names one of its records.
pub proof fn lemma_sha_index_bounded(cs: Seq<CommitRecord>)
    requires
        cs.len() <= usize::MAX,
    ensures
        forall|k: Seq<char>| #[trigger]
            sha_index(cs).contains_key(k) ==> (sha_index(cs)[k] as int) < cs.len(),
{
    lemma_index_upto_bounded(cs, cs.len());
}

/// Binds each record's identifier to its position; a repeated identifier
/// keeps the last position that carries it.
pub fn build_index(commits: &Vec<CommitRecord>) -> (r: IndexMap<String, usize>)
    ensures
        index_entries(r) == sha_index(commits@),
{
    let mut m = new_index();
    let mut i: usize = 0;
    while i < commits.len()
        invariant
            i <= commits.len(),
            index_entries(m) == index_upto(commits@, i as nat),
        decreases commits.len() - i,
    {
        index_insert(&mut m, commits[i].sha.clone(), i);
        i = i + 1;
    }
    m
}

/// The positions of `rec`'s parents that resolve in `index`, in listed order.
pub fn resolve_parents(index: &IndexMap<String, usize>, rec: &CommitRecord) -> (r: Vec<usize>)
    ensures
        r@ == resolve(index_entries(*index), rec.parents@),
{
    let mut r: Vec<usize> = Vec::new();
    let mut k: usize = 0;
    while k < rec.parents.len()
        invariant
            k <= rec.parents.len(),
            r@ == resolve(index_entries(*index), rec.parents@.take(k as int)),
        decreases rec.parents.len() - k,
    {
        assert(rec.parents@.take(k + 1).drop_last() =~= rec.parents@.take(k as int));
        match index_get(index, &rec.parents[k]) {
            Some(p) => r.push(p),
            None => {},
        }
        k = k + 1;
    }
    assert(rec.parents@.take(k as int) =~= rec.parents@);
    r
}

/// The in-set parent positions of every record.
pub fn resolve_links(commits: &Vec<CommitRecord>, index: &IndexMap<String, usize>) -> (r: Vec<
    Vec<usize>,
>)
    requires
        index_entries(*index) == sha_index(commits@),
    ensures
        r.deep_view() == commit_links(commits@),
{
    let mut r: Vec<Vec<usize>> = Vec::new();
    let mut i: usize = 0;
    while i < commits.len()
        invariant
            i <= commits.len(),
            index_entries(*index) == sha_index(commits@),
            r.len() == i,
            forall|j: int| 0 <= j < i ==> (#[trigger] r[j])@ == parents_of(commits@, j),
        decreases commits.len() - i,
    {
        let ps = resolve_parents(index, &commits[i]);
        r.push(ps);
        i = i + 1;
    }
    assert forall|j: int| 0 <= j < r.len() implies r.deep_view()[j] == parents_of(commits@, j) by {
        assert(r.deep_view()[j] =~= r[j]@);
    }
    assert(r.deep_view() =~= commit_links(commits@));
    r
}

} // verus!
