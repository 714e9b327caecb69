//! Branch-name rules: which branches count as main lines, which reference a
//! repository's main line resolves to, and the branches request defaults.

use vstd::prelude::*;

verus! {

/// The characters of `s` lowered as `str::to_lowercase` lowers them.
pub uninterp spec fn lower_of(s: Seq<char>) -> Seq<char>;

/// Relies on `str::to_lowercase`: its result depends on the characters alone.
#[verifier::external_body]
fn lowercase(s: &str) -> (r: String)
    ensures
        r@ == lower_of(s@),
{
    s.to_lowercase()
}

/// Whether a branches request fetches from the remotes when it does not say.
pub fn default_auto_fetch() -> (r: bool)
    ensures
        r,
{
    true
}

/// Options of a branches request.
pub struct BranchesQuery {
    pub auto_fetch: bool,
}

impl Default for BranchesQuery {
    fn default() -> (r: Self)
        ensures
            r.auto_fetch == true,
    {
        BranchesQuery { auto_fetch: default_auto_fetch() }
    }
}

/// The part of `s` after its last `/` (all of `s` when it has none).
pub open spec fn last_segment(s: Seq<char>) -> Seq<char>
    decreases s.len(),
{
    if s.len() == 0 {
        s
    } else if s.last() == '/' {
        Seq::empty()
    } else {
        last_segment(s.drop_last()).push(s.last())
    }
}

/// The names of main-line branches.
pub open spec fn is_main_name(s: Seq<char>) -> bool {
    ||| s == "main"@
    ||| s == "master"@
    ||| s == "develop"@
    ||| s == "development"@
    ||| s == "trunk"@
}

/// Whether two strings hold the same characters.
fn same_chars(a: &str, b: &str) -> (r: bool)
    ensures
        r == (a@ == b@),
{
    let n = a.unicode_len();
    if n != b.unicode_len() {
        return false;
    }
    let mut i: usize = 0;
    while i < n
        invariant
            n == a@.len(),
            n == b@.len(),
            i <= n,
            forall|k: int| 0 <= k < i ==> a@[k] == b@[k],
        decreases n - i,
    {
        if a.get_char(i) != b.get_char(i) {
            return false;
        }
        i = i + 1;
    }
    assert(a@ =~= b@);
    true
}

/// The part of `s` after its last `/`.
fn after_last_slash(s: &str) -> (r: &str)
    ensures
        r@ == last_segment(s@),
{
    let n = s.unicode_len();
    let mut start: usize = 0;
    let mut i: usize = 0;
    while i < n
        invariant
            n == s@.len(),
            start <= i <= n,
            last_segment(s@.take(i as int)) == s@.subrange(start as int, i as int),
        decreases n - i,
    {
        assert(s@.take(i + 1).drop_last() =~= s@.take(i as int));
        if s.get_char(i) == '/' {
            start = i + 1;
            assert(s@.subrange(start as int, (i + 1) as int) =~= Seq::<char>::empty());
        } else {
            assert(s@.subrange(start as int, (i + 1) as int) =~= s@.subrange(
                start as int,
                i as int,
            ).push(s@[i as int]));
        }
        i = i + 1;
    }
    assert(s@.take(n as int) =~= s@);
    s.substring_char(start, n)
}

/// Whether an already lowered branch name names a main line: its part after
/// the last `/` is main, master, develop, development or trunk.
pub fn is_main_like_lowered(lower: &str) -> (r: bool)
    ensures
        r == is_main_name(last_segment(lower@)),
{
    let base = after_last_slash(lower);
    same_chars(base, "main") || same_chars(base, "master") || same_chars(base, "develop")
        || same_chars(base, "development") || same_chars(base, "trunk")
}

/// Whether a branch names a main line, ignoring case and any remote or
/// folder prefix (`origin/Main` does).
pub fn is_main_like_branch(name: &str) -> (r: bool)
    ensures
        r == is_main_name(last_segment(lower_of(name@))),
{
    let lower = lowercase(name);
    is_main_like_lowered(lower.as_str())
}

/// The references tried as a repository's main line, in order of preference.
pub open spec fn main_ref_candidates_spec() -> Seq<Seq<char>> {
    seq![
        "main"@,
        "master"@,
        "origin/main"@,
        "origin/master"@,
        "develop"@,
        "origin/develop"@,
    ]
}

/// The references tried as a repository's main line, in order of preference.
pub fn main_ref_candidates() -> (r: Vec<String>)
    ensures
        r@.map_values(|s: String| s@) == main_ref_candidates_spec(),
{
    let r = vec![
        String::from_str("main"),
        String::from_str("master"),
        String::from_str("origin/main"),
        String::from_str("origin/master"),
        String::from_str("develop"),
        String::from_str("origin/develop"),
    ];
    assert(r@.map_values(|s: String| s@) =~= main_ref_candidates_spec());
    r
}

/// The first of `cands` that `present` holds.
pub open spec fn first_present(cands: Seq<Seq<char>>, present: Seq<Seq<char>>) -> Option<
    Seq<char>,
>
    decreases cands.len(),
{
    if cands.len() == 0 {
        None
    } else if present.contains(cands[0]) {
        Some(cands[0])
    } else {
        first_present(cands.skip(1), present)
    }
}

/// Whether `v` holds a string equal to `s`.
fn holds(v: &Vec<String>, s: &String) -> (r: bool)
    ensures
        r == v@.map_values(|x: String| x@).contains(s@),
{
    let ghost views = v@.map_values(|x: String| x@);
    let mut i: usize = 0;
    while i < v.len()
        invariant
            i <= v.len(),
            views == v@.map_values(|x: String| x@),
            forall|k: int| 0 <= k < i ==> views[k] != s@,
        decreases v.len() - i,
    {
        if v[i] == *s {
            assert(views[i as int] == s@);
            return true;
        }
        i = i + 1;
    }
    false
}

/// The main-line reference of a repository: the first candidate (main,
/// master, origin/main, origin/master, develop, origin/develop) that
/// `resolvable` holds, else `main`.
pub fn find_main_ref(resolvable: &Vec<String>) -> (r: String)
    ensures
        r@ == match first_present(
            main_ref_candidates_spec(),
            resolvable@.map_values(|s: String| s@),
        ) {
            Some(c) => c,
            None => "main"@,
        },
{
    let ghost present = resolvable@.map_values(|s: String| s@);
    let cands = main_ref_candidates();
    assert(cands@.len() == 6);
    let ghost cv = cands@.map_values(|s: String| s@);
    let mut i: usize = 0;
    assert(cv.skip(0) =~= cv);
    while i < cands.len()
        invariant
            i <= cands.len(),
            cv == cands@.map_values(|s: String| s@),
            cv == main_ref_candidates_spec(),
            present == resolvable@.map_values(|s: String| s@),
            first_present(cv, present) == first_present(cv.skip(i as int), present),
        decreases cands.len() - i,
    {
        assert(cv.skip(i as int)[0] == cands[i as int]@);
        assert(cv.skip(i as int).skip(1) =~= cv.skip(i + 1));
        if holds(resolvable, &cands[i]) {
            assert(present.contains(cv.skip(i as int)[0]));
            return cands[i].clone();
        }
        i = i + 1;
    }
    String::from_str("main")
}

} // verus!
