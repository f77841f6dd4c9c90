use vstd::prelude::*;
use crate::text::{chars_of, string_of_range};

verus! {

// The final component of a path and its extension, as `std::path::Path`
// gives them on Unix: components are separated by `/`, empty components and
// `.` components do not count, and `..` names no file.

/// The index of the last `c` in `s`, or -1 when it has none.
pub open spec fn last_of(s: Seq<char>, c: char) -> int
    decreases s.len(),
{
    if s.len() == 0 {
        -1
    } else if s.last() == c {
        s.len() - 1
    } else {
        last_of(s.drop_last(), c)
    }
}

pub proof fn lemma_last_of(s: Seq<char>, c: char, k: int)
    requires
        -1 <= k < s.len(),
        k >= 0 ==> s[k] == c,
        forall|j: int| k < j < s.len() ==> s[j] != c,
    ensures
        last_of(s, c) == k,
    decreases s.len(),
{
    if s.len() > 0 && s.last() != c {
        lemma_last_of(s.drop_last(), c, k);
    }
}

/// The last component of `p` that is neither empty nor `.`.
pub open spec fn final_component(p: Seq<char>) -> Option<Seq<char>>
    decreases p.len(),
{
    let k = last_of(p, '/');
    let seg = p.subrange(k + 1, p.len() as int);
    if k < -1 || k >= p.len() {
        None
    } else if seg.len() > 0 && seg != seq!['.'] {
        Some(seg)
    } else if k < 0 {
        None
    } else {
        final_component(p.subrange(0, k))
    }
}

/// The file name of the path `p` (`Path::file_name`): its final component,
/// unless there is none or it is `..`.
pub open spec fn file_name_spec(p: Seq<char>) -> Option<Seq<char>> {
    match final_component(p) {
        Some(s) => if s == seq!['.', '.'] {
            None
        } else {
            Some(s)
        },
        None => None,
    }
}

/// The extension of the path `p` (`Path::extension`): what follows the last
/// `.` of its file name, unless the name has no `.` or its only `.` is the
/// first character.
pub open spec fn extension_spec(p: Seq<char>) -> Option<Seq<char>> {
    match file_name_spec(p) {
        None => None,
        Some(n) => {
            let d = last_of(n, '.');
            if d <= 0 {
                None
            } else {
                Some(n.subrange(d + 1, n.len() as int))
            }
        },
    }
}

/// The index of the last `c` in `v[0..end]`, or `end` itself when there is none.
fn last_index(v: &Vec<char>, end: usize, c: char) -> (k: usize)
    requires
        end <= v@.len(),
    ensures
        k <= end,
        k < end ==> last_of(v@.subrange(0, end as int), c) == k,
        k == end ==> last_of(v@.subrange(0, end as int), c) == -1,
{
    let mut j: usize = end;
    while j > 0 && v[j - 1] != c
        invariant
            j <= end <= v@.len(),
            forall|i: int| j <= i < end ==> v@[i] != c,
        decreases j,
    {
        j = j - 1;
    }
    proof {
        let s = v@.subrange(0, end as int);
        if j > 0 {
            lemma_last_of(s, c, j - 1);
        } else {
            lemma_last_of(s, c, -1);
        }
    }
    if j > 0 {
        j - 1
    } else {
        end
    }
}

/// Where the final component of `v` (see `final_component`) lies in `v`.
fn final_component_range(v: &Vec<char>) -> (r: Option<(usize, usize)>)
    ensures
        match r {
            Some((a, b)) => a <= b <= v@.len() && final_component(v@) == Some(
                v@.subrange(a as int, b as int),
            ),
            None => final_component(v@) is None,
        },
{
    let mut end: usize = v.len();
    proof {
        assert(v@.subrange(0, end as int) =~= v@);
    }
    loop
        invariant
            end <= v@.len(),
            final_component(v@) == final_component(v@.subrange(0, end as int)),
        decreases end,
    {
        let ghost p = v@.subrange(0, end as int);
        let k = last_index(v, end, '/');
        let start: usize = if k < end {
            k + 1
        } else {
            0
        };
        proof {
            assert(p.subrange(start as int, p.len() as int) =~= v@.subrange(
                start as int,
                end as int,
            ));
        }
        let is_dot = start < end && end - start == 1 && v[start] == '.';
        proof {
            if end == start + 1 {
                if v@[start as int] == '.' {
                    assert(v@.subrange(start as int, end as int) =~= seq!['.']);
                } else {
                    assert(v@.subrange(start as int, end as int)[0] != '.');
                }
            } else {
                assert(v@.subrange(start as int, end as int).len() != 1);
            }
        }
        if start < end && !is_dot {
            return Some((start, end));
        }
        if k == end {
            return None;
        }
        proof {
            assert(p.subrange(0, k as int) =~= v@.subrange(0, k as int));
        }
        end = k;
    }
}

/// Where the file name of `v` lies in `v`.
fn file_name_range(v: &Vec<char>) -> (r: Option<(usize, usize)>)
    ensures
        match r {
            Some((a, b)) => a <= b <= v@.len() && file_name_spec(v@) == Some(
                v@.subrange(a as int, b as int),
            ),
            None => file_name_spec(v@) is None,
        },
{
    match final_component_range(v) {
        None => None,
        Some((a, b)) => {
            let is_dotdot = a < b && b - a == 2 && v[a] == '.' && v[a + 1] == '.';
            proof {
                let s = v@.subrange(a as int, b as int);
                if is_dotdot {
                    assert(s =~= seq!['.', '.']);
                } else if s.len() == 2 {
                    assert(s[0] != '.' || s[1] != '.');
                }
            }
            if is_dotdot {
                None
            } else {
                Some((a, b))
            }
        },
    }
}

/// The file name of `path` (see `file_name_spec`).
pub fn file_name(path: &str) -> (r: Option<String>)
    ensures
        match r {
            Some(s) => file_name_spec(path@) == Some(s@),
            None => file_name_spec(path@) is None,
        },
{
    let v = chars_of(path);
    match file_name_range(&v) {
        Some((a, b)) => Some(string_of_range(&v, a, b)),
        None => None,
    }
}

/// The extension of `path` (see `extension_spec`).
pub fn extension(path: &str) -> (r: Option<String>)
    ensures
        match r {
            Some(s) => extension_spec(path@) == Some(s@),
            None => extension_spec(path@) is None,
        },
{
    let v = chars_of(path);
    match file_name_range(&v) {
        None => None,
        Some((a, b)) => {
            let ghost n = v@.subrange(a as int, b as int);
            let k = last_index(&v, b, '.');
            let ghost whole = v@.subrange(0, b as int);
            // The last dot of v[0..b] lies in the name exactly when it is at or after a.
            proof {
                if k < b && k >= a {
                    assert forall|j: int| k - a < j < n.len() implies n[j] != '.' by {
                        assert(n[j] == whole[j + a]);
                        if whole[j + a] == '.' {
                            lemma_last_of_is_last(whole, '.', j + a);
                        }
                    }
                    assert(n[k - a] == whole[k as int]);
                    lemma_last_of_props(whole, '.');
                    lemma_last_of(n, '.', k - a);
                } else {
                    assert forall|j: int| -1 < j < n.len() implies n[j] != '.' by {
                        assert(n[j] == whole[j + a]);
                        if whole[j + a] == '.' {
                            lemma_last_of_is_last(whole, '.', j + a);
                        }
                    }
                    lemma_last_of(n, '.', -1);
                }
            }
            if k < b && k > a {
                proof {
                    assert(n.subrange(k - a + 1, n.len() as int) =~= v@.subrange(
                        k + 1,
                        b as int,
                    ));
                }
                Some(string_of_range(&v, k + 1, b))
            } else {
                None
            }
        },
    }
}

pub proof fn lemma_last_of_props(s: Seq<char>, c: char)
    ensures
        -1 <= last_of(s, c) < s.len(),
        last_of(s, c) >= 0 ==> s[last_of(s, c)] == c,
        forall|j: int| last_of(s, c) < j < s.len() ==> s[j] != c,
    decreases s.len(),
{
    if s.len() > 0 && s.last() != c {
        lemma_last_of_props(s.drop_last(), c);
        assert forall|j: int| last_of(s, c) < j < s.len() implies s[j] != c by {
            if j < s.len() - 1 {
                assert(s[j] == s.drop_last()[j]);
            }
        }
    }
}

pub proof fn lemma_last_of_is_last(s: Seq<char>, c: char, j: int)
    requires
        0 <= j < s.len(),
        s[j] == c,
    ensures
        j <= last_of(s, c),
{
    lemma_last_of_props(s, c);
}

} // verus!
