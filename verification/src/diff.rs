use vstd::prelude::*;
use vstd::string::StringSliceAdditionalSpecFns;
use vstd::utf8::{encode_utf8, is_char_boundary};
use crate::config::{hint_for, lang_hint, or_empty};
use crate::path::extension_spec;
use crate::text::{
    chars_of, join, line_ranges, lines, padded4, push_char, push_padded4, push_range, push_str,
    string_of_range, trim, trim_end, trim_end_index, trim_indices,
};
use crate::tree::string_texts;

verus! {

// ----------------------------------------------------------------------------
// Numbered lines
// ----------------------------------------------------------------------------

/// Each line behind its number (from 1, right-aligned in four columns) and
/// ` | `.
pub open spec fn numbered(ls: Seq<Seq<char>>) -> Seq<Seq<char>> {
    Seq::new(ls.len(), |i: int| padded4((i + 1) as nat) + " | "@ + ls[i])
}

/// The lines of `content`, numbered (see `numbered`), joined by line feeds.
pub open spec fn numbered_text(content: Seq<char>) -> Seq<char> {
    join(numbered(lines(content)), seq!['\n'])
}

/// The lines of `content`, numbered (see `numbered_text`).
pub fn with_line_numbers(content: &str) -> (r: String)
    ensures
        r@ == numbered_text(content@),
{
    let v = chars_of(content);
    let ranges = line_ranges(&v);
    let ghost ls = lines(v@);
    let ghost nl = numbered(ls);
    let mut out = String::new();
    let mut i: usize = 0;
    proof {
        assert(nl.take(0) =~= Seq::<Seq<char>>::empty());
    }
    while i < ranges.len()
        invariant
            i <= ranges@.len(),
            ls == lines(v@),
            nl == numbered(ls),
            v@ == content@,
            ranges@.len() == ls.len(),
            forall|k: int|
                0 <= k < ranges@.len() ==> {
                    &&& (#[trigger] ranges@[k]).0 <= ranges@[k].1 <= v@.len()
                    &&& v@.subrange(ranges@[k].0 as int, ranges@[k].1 as int) == ls[k]
                },
            out@ == join(nl.take(i as int), seq!['\n']),
        decreases ranges@.len() - i,
    {
        let ghost before = out@;
        if i > 0 {
            push_char(&mut out, '\n');
        }
        let (lo, hi) = ranges[i];
        push_padded4(&mut out, (i + 1) as u64);
        push_str(&mut out, " | ");
        push_range(&mut out, &v, lo, hi);
        proof {
            let t = nl.take(i + 1);
            assert(t.drop_last() =~= nl.take(i as int));
            assert(t.last() == padded4((i + 1) as nat) + " | "@ + ls[i as int]);
            if i == 0 {
                assert(out@ =~= t[0]);
            } else {
                assert(out@ =~= before + seq!['\n'] + t.last());
            }
        }
        i = i + 1;
    }
    proof {
        assert(nl.take(ranges@.len() as int) =~= nl);
    }
    out
}

// ----------------------------------------------------------------------------
// Text of the diff document
// ----------------------------------------------------------------------------

/// The title of the diff document.
pub open spec fn diff_title_text(commit: Option<Seq<char>>) -> Seq<char> {
    match commit {
        Some(c) => "# Diff since `"@ + c + "`\n\n"@,
        None => "# Staged changes\n\n"@,
    }
}

pub open spec fn opt_view(commit: Option<&str>) -> Option<Seq<char>> {
    match commit {
        Some(c) => Some(c@),
        None => None,
    }
}

/// The title of the diff document: since a commit, or of the staged changes.
pub fn diff_title(commit: Option<&str>) -> (r: String)
    ensures
        r@ == diff_title_text(opt_view(commit)),
{
    let mut out = String::new();
    match commit {
        Some(c) => {
            push_str(&mut out, "# Diff since `");
            push_str(&mut out, c);
            push_str(&mut out, "`\n\n");
        },
        None => {
            push_str(&mut out, "# Staged changes\n\n");
        },
    }
    assert(out@ =~= diff_title_text(opt_view(commit)));
    out
}

/// The number of bytes of the label that name the diff file: at most eight.
pub open spec fn short_len(label: &str) -> int {
    if label.len() < 8 {
        label.len() as int
    } else {
        8
    }
}

/// The label of a diff: the commit cut to its first eight bytes, or
/// `staged`. Cutting inside a character is no label.
pub fn diff_label(commit: Option<&str>) -> (r: String)
    requires
        commit matches Some(c) ==> is_char_boundary(c.spec_bytes(), short_len(c)),
    ensures
        match commit {
            Some(c) => encode_utf8(r@) == c.spec_bytes().take(short_len(c)),
            None => r@ == "staged"@,
        },
{
    match commit {
        Some(c) => {
            let n = c.len();
            let k: usize = if n < 8 {
                n
            } else {
                8
            };
            assert(k == short_len(c));
            assert(is_char_boundary(c.spec_bytes(), k as int));
            let (head, _) = c.split_at(k);
            let r = head.to_owned();
            assert(c.spec_bytes().subrange(0, k as int) =~= c.spec_bytes().take(k as int));
            r
        },
        None => "staged".to_owned(),
    }
}

/// The name of the diff document for a label: `dumbo_diff_<label>.md`.
pub fn diff_output_name(label: &str) -> (r: String)
    ensures
        r@ == "dumbo_diff_"@ + label@ + ".md"@,
{
    let mut out = String::new();
    push_str(&mut out, "dumbo_diff_");
    push_str(&mut out, label);
    push_str(&mut out, ".md");
    out
}

/// What `git diff --stat` printed, or nothing when it printed only white space.
pub fn stat_text(output: &str) -> (r: String)
    ensures
        r@ == (if trim(output@).len() == 0 {
            Seq::<char>::empty()
        } else {
            output@
        }),
{
    let v = chars_of(output);
    let (a, b) = trim_indices(&v, 0, v.len());
    assert(v@.subrange(0, v@.len() as int) =~= v@);
    if a == b {
        String::new()
    } else {
        output.to_owned()
    }
}

/// The note that stands in the document where `git diff` printed nothing.
pub open spec fn no_diff_note(commit: Option<Seq<char>>) -> Seq<char> {
    match commit {
        Some(c) => "No differences found between "@ + c + " and current state.\n"@,
        None => "No staged changes.\n"@,
    }
}

/// What `git diff` printed, or a note when it printed only white space.
pub fn diff_text(commit: Option<&str>, output: &str) -> (r: String)
    ensures
        r@ == (if trim(output@).len() == 0 {
            no_diff_note(opt_view(commit))
        } else {
            output@
        }),
{
    let v = chars_of(output);
    let (a, b) = trim_indices(&v, 0, v.len());
    assert(v@.subrange(0, v@.len() as int) =~= v@);
    if a == b {
        let mut out = String::new();
        match commit {
            Some(c) => {
                push_str(&mut out, "No differences found between ");
                push_str(&mut out, c);
                push_str(&mut out, " and current state.\n");
            },
            None => {
                push_str(&mut out, "No staged changes.\n");
            },
        }
        assert(out@ =~= no_diff_note(opt_view(commit)));
        out
    } else {
        output.to_owned()
    }
}

/// The paths that `git diff --name-only` printed: each line, trimmed.
pub fn changed_paths(output: &str) -> (r: Vec<String>)
    ensures
        string_texts(r@) == lines(output@).map_values(|l: Seq<char>| trim(l)),
{
    let v = chars_of(output);
    let ranges = line_ranges(&v);
    let ghost ls = lines(v@);
    let ghost want = ls.map_values(|l: Seq<char>| trim(l));
    let mut r: Vec<String> = Vec::new();
    let mut i: usize = 0;
    while i < ranges.len()
        invariant
            i <= ranges@.len(),
            ls == lines(v@),
            want == ls.map_values(|l: Seq<char>| trim(l)),
            v@ == output@,
            ranges@.len() == ls.len(),
            forall|k: int|
                0 <= k < ranges@.len() ==> {
                    &&& (#[trigger] ranges@[k]).0 <= ranges@[k].1 <= v@.len()
                    &&& v@.subrange(ranges@[k].0 as int, ranges@[k].1 as int) == ls[k]
                },
            string_texts(r@) == want.take(i as int),
        decreases ranges@.len() - i,
    {
        let (lo, hi) = ranges[i];
        let (a, b) = trim_indices(&v, lo, hi);
        let p = string_of_range(&v, a, b);
        proof {
            assert(p@ == trim(ls[i as int]));
            assert(want[i as int] == trim(ls[i as int]));
            assert(string_texts(r@.push(p)) =~= string_texts(r@).push(p@));
            assert(want.take(i + 1) =~= want.take(i as int).push(want[i as int]));
        }
        r.push(p);
        i = i + 1;
    }
    assert(want.take(ranges@.len() as int) =~= want);
    r
}

/// The Markdown block of one changed file: its path as a heading, then its
/// numbered lines (trailing white space cut off) in a code fence labelled by
/// language.
pub open spec fn changed_file_block_text(path: Seq<char>, content: Seq<char>) -> Seq<char> {
    "### `"@ + path + "`\n\n```"@ + hint_for(or_empty(extension_spec(path))) + seq!['\n']
        + numbered_text(trim_end(content)) + "\n```\n\n"@
}

/// The Markdown block of the changed file at `path` holding `content`.
pub fn changed_file_block(path: &str, content: &str) -> (r: String)
    ensures
        r@ == changed_file_block_text(path@, content@),
{
    let mut out = String::new();
    push_str(&mut out, "### `");
    push_str(&mut out, path);
    push_str(&mut out, "`\n\n```");
    push_str(&mut out, lang_hint(path));
    push_char(&mut out, '\n');
    let v = chars_of(content);
    let end = trim_end_index(&v, 0, v.len());
    assert(v@.subrange(0, v@.len() as int) =~= v@);
    let body = string_of_range(&v, 0, end);
    let numbered_body = with_line_numbers(body.as_str());
    push_str(&mut out, numbered_body.as_str());
    push_str(&mut out, "\n```\n\n");
    assert(out@ =~= changed_file_block_text(path@, content@));
    out
}

// ----------------------------------------------------------------------------
// The diff document
// ----------------------------------------------------------------------------

/// The texts of `parts`, one after the other.
pub open spec fn concat_all(parts: Seq<Seq<char>>) -> Seq<char>
    decreases parts.len(),
{
    if parts.len() == 0 {
        Seq::empty()
    } else {
        concat_all(parts.drop_last()) + parts.last()
    }
}

/// The blocks of the changed files `files` (path, content), one after the
/// other.
pub open spec fn file_blocks_text(files: Seq<(String, String)>) -> Seq<char>
    decreases files.len(),
{
    if files.len() == 0 {
        Seq::empty()
    } else {
        file_blocks_text(files.drop_last()) + changed_file_block_text(
            files.last().0@,
            files.last().1@,
        )
    }
}

/// The part of one directory under "Current state of changed files": the
/// blocks of its changed files, or a note that it has none.
pub open spec fn changed_section_text(files: Seq<(String, String)>) -> Seq<char> {
    if files.len() == 0 {
        "_No changed files._\n\n"@
    } else {
        file_blocks_text(files)
    }
}

/// The parts of the directories `dirs`, one after the other.
pub open spec fn changed_sections_text(dirs: Seq<Vec<(String, String)>>) -> Seq<char>
    decreases dirs.len(),
{
    if dirs.len() == 0 {
        Seq::empty()
    } else {
        changed_sections_text(dirs.drop_last()) + changed_section_text(dirs.last()@)
    }
}

/// The diff document: the title, the summaries of the directories in a code
/// fence, their changes in a `diff` fence, then the current state of the
/// changed files of each directory.
pub open spec fn diff_document_text(
    commit: Option<Seq<char>>,
    stats: Seq<Seq<char>>,
    diffs: Seq<Seq<char>>,
    changed: Seq<Vec<(String, String)>>,
) -> Seq<char> {
    diff_title_text(commit) + "## Summary\n\n```\n"@ + concat_all(stats) + "```\n\n"@
        + "## Changes\n\n```diff\n"@ + concat_all(diffs) + "```\n\n"@
        + "## Current state of changed files\n\n"@ + changed_sections_text(changed)
}

fn push_all(out: &mut String, parts: &Vec<String>)
    ensures
        final(out)@ == old(out)@ + concat_all(string_texts(parts@)),
{
    let ghost start = out@;
    let mut i: usize = 0;
    proof {
        assert(string_texts(parts@).take(0) =~= Seq::<Seq<char>>::empty());
        assert(start + Seq::<char>::empty() =~= start);
    }
    while i < parts.len()
        invariant
            i <= parts@.len(),
            out@ == start + concat_all(string_texts(parts@).take(i as int)),
        decreases parts@.len() - i,
    {
        push_str(out, parts[i].as_str());
        proof {
            let t = string_texts(parts@);
            assert(t.take(i + 1).drop_last() =~= t.take(i as int));
            assert(t.take(i + 1).last() == parts@[i as int]@);
        }
        i = i + 1;
    }
    proof {
        assert(string_texts(parts@).take(parts@.len() as int) =~= string_texts(parts@));
    }
}

fn push_changed_section(out: &mut String, files: &Vec<(String, String)>)
    ensures
        final(out)@ == old(out)@ + changed_section_text(files@),
{
    if files.len() == 0 {
        push_str(out, "_No changed files._\n\n");
        return;
    }
    let ghost start = out@;
    let mut i: usize = 0;
    proof {
        assert(files@.take(0) =~= Seq::<(String, String)>::empty());
        assert(start + Seq::<char>::empty() =~= start);
    }
    while i < files.len()
        invariant
            i <= files@.len(),
            out@ == start + file_blocks_text(files@.take(i as int)),
        decreases files@.len() - i,
    {
        let block = changed_file_block(files[i].0.as_str(), files[i].1.as_str());
        push_str(out, block.as_str());
        proof {
            assert(files@.take(i + 1).drop_last() =~= files@.take(i as int));
            assert(files@.take(i + 1).last() == files@[i as int]);
        }
        i = i + 1;
    }
    proof {
        assert(files@.take(files@.len() as int) =~= files@);
    }
}

/// The diff document (see `diff_document_text`) for the summaries `stats`
/// and changes `diffs` of each directory, and, for each directory, its
/// changed files as (path, content).
pub fn diff_document(
    commit: Option<&str>,
    stats: &Vec<String>,
    diffs: &Vec<String>,
    changed: &Vec<Vec<(String, String)>>,
) -> (r: String)
    ensures
        r@ == diff_document_text(opt_view(commit), string_texts(stats@), string_texts(diffs@), changed@),
{
    let mut out = diff_title(commit);
    push_str(&mut out, "## Summary\n\n```\n");
    push_all(&mut out, stats);
    push_str(&mut out, "```\n\n");
    push_str(&mut out, "## Changes\n\n```diff\n");
    push_all(&mut out, diffs);
    push_str(&mut out, "```\n\n");
    push_str(&mut out, "## Current state of changed files\n\n");
    let ghost mid = out@;
    let mut i: usize = 0;
    proof {
        assert(changed@.take(0) =~= Seq::<Vec<(String, String)>>::empty());
        assert(mid + Seq::<char>::empty() =~= mid);
    }
    while i < changed.len()
        invariant
            i <= changed@.len(),
            out@ == mid + changed_sections_text(changed@.take(i as int)),
        decreases changed@.len() - i,
    {
        push_changed_section(&mut out, &changed[i]);
        proof {
            assert(changed@.take(i + 1).drop_last() =~= changed@.take(i as int));
            assert(changed@.take(i + 1).last() == changed@[i as int]);
        }
        i = i + 1;
    }
    proof {
        assert(changed@.take(changed@.len() as int) =~= changed@);
    }
    assert(out@ =~= diff_document_text(
        opt_view(commit),
        string_texts(stats@),
        string_texts(diffs@),
        changed@,
    ));
    out
}

// ----------------------------------------------------------------------------
// The git commands
// ----------------------------------------------------------------------------

/// What a `git diff` call is asked for.
pub enum DiffQuery {
    /// `--stat`: the summary of the changes.
    Stat,
    /// The changes themselves.
    Patch,
    /// `--name-only`: the paths of the changed files.
    Names,
}

/// The arguments of `git` for a query: `diff`, the query's option, the
/// commit or `--staged`, `--` and the directory.
pub open spec fn diff_args_of(query: DiffQuery, commit: Option<Seq<char>>, dir: Seq<char>) -> Seq<
    Seq<char>,
> {
    let head = match query {
        DiffQuery::Stat => seq!["diff"@, "--stat"@],
        DiffQuery::Patch => seq!["diff"@],
        DiffQuery::Names => seq!["diff"@, "--name-only"@],
    };
    let target = match commit {
        Some(c) => c,
        None => "--staged"@,
    };
    head + seq![target, "--"@, dir]
}

/// The arguments of `git` for a query (see `diff_args_of`).
pub fn diff_args(query: DiffQuery, commit: Option<&str>, dir: &str) -> (r: Vec<String>)
    ensures
        string_texts(r@) == diff_args_of(query, opt_view(commit), dir@),
{
    let mut r: Vec<String> = Vec::new();
    r.push("diff".to_owned());
    match query {
        DiffQuery::Stat => r.push("--stat".to_owned()),
        DiffQuery::Patch => {},
        DiffQuery::Names => r.push("--name-only".to_owned()),
    }
    match commit {
        Some(c) => r.push(c.to_owned()),
        None => r.push("--staged".to_owned()),
    }
    r.push("--".to_owned());
    r.push(dir.to_owned());
    assert(string_texts(r@) =~= diff_args_of(query, opt_view(commit), dir@));
    r
}

/// The object that `git cat-file -e` checks for a commit reference:
/// `<commit>^{commit}`.
pub fn commit_object(commit: &str) -> (r: String)
    ensures
        r@ == commit@ + "^{commit}"@,
{
    let mut out = String::new();
    push_str(&mut out, commit);
    push_str(&mut out, "^{commit}");
    out
}

} // verus!
