//! When a file was created: decided from the repository's commit count and
//! the first line of `git log --diff-filter=A --format=%H%x1f%aI%x1f%s
//! --reverse -- <path>`.

use crate::models::FileCreationInfo;
use vstd::prelude::*;

verus! {

/// Repositories with more commits than this skip the file-creation lookup.
pub const LARGE_REPO_COMMIT_THRESHOLD: usize = 20_000;

/// The separator between the fields of a log line.
pub const FIELD_SEPARATOR: char = '\x1f';

/// The first line of `s`, as `str::lines` gives it: up to the first line
/// feed, without a carriage return just before it; none for empty text.
pub open spec fn first_line(s: Seq<char>) -> Option<Seq<char>> {
    if s.len() == 0 {
        None
    } else if s.contains('\n') {
        let e = choose|e: int| 0 <= e < s.len() && s[e] == '\n' && !s.take(e).contains('\n');
        let l = s.take(e);
        if l.len() > 0 && l.last() == '\r' {
            Some(l.drop_last())
        } else {
            Some(l)
        }
    } else {
        Some(s)
    }
}

/// The fields of `s` between separators (one field for text without one).
pub open spec fn split_fields(s: Seq<char>) -> Seq<Seq<char>>
    decreases s.len(),
{
    if s.len() == 0 {
        seq![Seq::empty()]
    } else {
        let r = split_fields(s.drop_last());
        if s.last() == FIELD_SEPARATOR {
            r.push(Seq::empty())
        } else {
            r.update(r.len() - 1, r.last().push(s.last()))
        }
    }
}

/// The view of an optional string.
pub open spec fn opt_view(o: Option<String>) -> Option<Seq<char>> {
    match o {
        Some(s) => Some(s@),
        None => None,
    }
}

/// The fields of a lookup result: found, commit sha, commit date, date,
/// message and error.
pub type CreationModel = (
    bool,
    Option<Seq<char>>,
    Option<Seq<char>>,
    Option<Seq<char>>,
    Option<Seq<char>>,
    Option<Seq<char>>,
);

/// The lookup result for a file, from the commit count (when known) and the
/// log output.
pub open spec fn creation_model(commit_count: Option<usize>, log_out: Seq<char>) -> CreationModel {
    let not_found = (false, None, None, None, Some("File creation commit not found"@), None);
    if commit_count matches Some(c) && c > LARGE_REPO_COMMIT_THRESHOLD {
        (
            false,
            None,
            None,
            None,
            Some("Disabled for performance on large repositories"@),
            Some("disabled"@),
        )
    } else {
        match first_line(log_out) {
            None => not_found,
            Some(line) => {
                let p = split_fields(line);
                if p.len() >= 2 {
                    (
                        true,
                        Some(p[0]),
                        Some(p[1]),
                        Some(p[1]),
                        if p.len() > 2 {
                            Some(p[2])
                        } else {
                            None
                        },
                        None,
                    )
                } else {
                    not_found
                }
            },
        }
    }
}

/// The lookup result as its fields.
pub open spec fn info_model(info: FileCreationInfo) -> CreationModel {
    (
        info.found,
        opt_view(info.commit_sha),
        opt_view(info.commit_date),
        opt_view(info.date),
        opt_view(info.message),
        opt_view(info.error),
    )
}

proof fn lemma_split_nonempty(s: Seq<char>)
    ensures
        split_fields(s).len() >= 1,
    decreases s.len(),
{
    if s.len() > 0 {
        lemma_split_nonempty(s.drop_last());
    }
}

/// The first line of `s`.
fn first_line_of(s: &str) -> (r: Option<&str>)
    ensures
        opt_str_view(r) == first_line(s@),
{
    let n = s.unicode_len();
    if n == 0 {
        return None;
    }
    let mut i: usize = 0;
    while i < n
        invariant
            n == s@.len(),
            i <= n,
            !s@.take(i as int).contains('\n'),
        decreases n - i,
    {
        if s.get_char(i) == '\n' {
            proof {
                assert(s@.take(i as int).len() == i);
                assert(s@[i as int] == '\n');
                assert(s@.contains('\n'));
                let e = choose|e: int| 0 <= e < s@.len() && s@[e] == '\n' && !s@.take(e).contains('\n');
                assert(e == i) by {
                    if e < i {
                        assert(s@.take(i as int)[e] == '\n');
                    }
                    if e > i {
                        assert(s@.take(e)[i as int] == '\n');
                    }
                }
            }
            if i > 0 && s.get_char(i - 1) == '\r' {
                let l = s.substring_char(0, i - 1);
                assert(l@ =~= s@.take(i as int).drop_last());
                return Some(l);
            }
            let l = s.substring_char(0, i);
            assert(l@ =~= s@.take(i as int));
            return Some(l);
        }
        assert(!s@.take(i + 1).contains('\n')) by {
            if s@.take(i + 1).contains('\n') {
                let k = choose|k: int| 0 <= k < i + 1 && #[trigger] s@.take(i + 1)[k] == '\n';
                if k < i {
                    assert(s@.take(i as int)[k] == '\n');
                }
            }
        }
        i = i + 1;
    }
    assert(s@.take(n as int) =~= s@);
    Some(s)
}

/// The view of an optional string slice.
pub open spec fn opt_str_view(o: Option<&str>) -> Option<Seq<char>> {
    match o {
        Some(s) => Some(s@),
        None => None,
    }
}

/// The fields of a log line.
fn split_line(line: &str) -> (r: Vec<String>)
    ensures
        r@.map_values(|f: String| f@) == split_fields(line@),
{
    let n = line.unicode_len();
    let mut r: Vec<String> = Vec::new();
    let mut start: usize = 0;
    let mut i: usize = 0;
    assert(line@.take(0) =~= Seq::<char>::empty());
    while i < n
        invariant
            n == line@.len(),
            start <= i <= n,
            r@.map_values(|f: String| f@).push(line@.subrange(start as int, i as int))
                == split_fields(line@.take(i as int)),
        decreases n - i,
    {
        let ghost prev = r@.map_values(|f: String| f@);
        assert(line@.take(i + 1).drop_last() =~= line@.take(i as int));
        if line.get_char(i) == FIELD_SEPARATOR {
            let field = String::from_str(line.substring_char(start, i));
            r.push(field);
            start = i + 1;
            assert(r@.map_values(|f: String| f@) =~= prev.push(field@));
            assert(line@.subrange(start as int, (i + 1) as int) =~= Seq::<char>::empty());
        } else {
            assert(line@.subrange(start as int, (i + 1) as int) =~= line@.subrange(
                start as int,
                i as int,
            ).push(line@[i as int]));
            assert(prev.push(line@.subrange(start as int, (i + 1) as int)) =~= prev.push(
                line@.subrange(start as int, i as int),
            ).update(prev.len() as int, line@.subrange(start as int, (i + 1) as int)));
        }
        i = i + 1;
    }
    let last = String::from_str(line.substring_char(start, n));
    let ghost prev = r@.map_values(|f: String| f@);
    r.push(last);
    assert(r@.map_values(|f: String| f@) =~= prev.push(last@));
    assert(line@.take(n as int) =~= line@);
    r
}

/// The file-creation lookup result, from the repository's commit count
/// (`None` when it could not be counted) and the log output.
pub fn compute_file_creation_info(commit_count: Option<usize>, log_out: &str) -> (r:
    FileCreationInfo)
    ensures
        info_model(r) == creation_model(commit_count, log_out@),
{
    let not_found = FileCreationInfo {
        found: false,
        commit_sha: None,
        commit_date: None,
        date: None,
        message: Some(String::from_str("File creation commit not found")),
        error: None,
    };
    if let Some(c) = commit_count {
        if c > LARGE_REPO_COMMIT_THRESHOLD {
            return FileCreationInfo {
                found: false,
                commit_sha: None,
                commit_date: None,
                date: None,
                message: Some(String::from_str("Disabled for performance on large repositories")),
                error: Some(String::from_str("disabled")),
            };
        }
    }
    match first_line_of(log_out) {
        None => not_found,
        Some(line) => {
            let parts = split_line(line);
            let ghost pv = parts@.map_values(|f: String| f@);
            if parts.len() >= 2 {
                assert(pv[0] == parts[0]@ && pv[1] == parts[1]@);
                let message = if parts.len() > 2 {
                    assert(pv[2] == parts[2]@);
                    Some(parts[2].clone())
                } else {
                    None
                };
                FileCreationInfo {
                    found: true,
                    commit_sha: Some(parts[0].clone()),
                    commit_date: Some(parts[1].clone()),
                    date: Some(parts[1].clone()),
                    message,
                    error: None,
                }
            } else {
                not_found
            }
        },
    }
}

} // verus!
