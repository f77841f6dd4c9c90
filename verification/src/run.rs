use vstd::prelude::*;
use crate::config::{hint_for, lang_hint, or_empty};
use crate::path::{extension_spec, file_name, file_name_spec};
use crate::text::{
    chars_of, join, line_ranges, lines, push_char, push_range, push_str,
    str_equal, string_of_range, trim, trim_end, trim_end_index, trim_indices,
};
use crate::tree::string_texts;

verus! {

// ----------------------------------------------------------------------------
// Counting what was gathered
// ----------------------------------------------------------------------------

/// How many files were gathered and how many bytes they hold.
pub struct Stats {
    pub file_count: usize,
    pub total_bytes: u64,
}

impl Stats {
    /// Nothing gathered yet.
    pub fn new() -> (s: Stats)
        ensures
            s.file_count == 0,
            s.total_bytes == 0,
    {
        Stats { file_count: 0, total_bytes: 0 }
    }

    /// Counts one more file of `bytes` bytes.
    pub fn record_file(&mut self, bytes: u64)
        requires
            old(self).file_count < usize::MAX,
            old(self).total_bytes + bytes <= u64::MAX,
        ensures
            final(self).file_count == old(self).file_count + 1,
            final(self).total_bytes == old(self).total_bytes + bytes,
    {
        self.file_count = self.file_count + 1;
        self.total_bytes = self.total_bytes + bytes;
    }

    /// Adds the counts of `other` to these.
    pub fn absorb(&mut self, other: &Stats)
        requires
            old(self).file_count + other.file_count <= usize::MAX,
            old(self).total_bytes + other.total_bytes <= u64::MAX,
        ensures
            final(self).file_count == old(self).file_count + other.file_count,
            final(self).total_bytes == old(self).total_bytes + other.total_bytes,
    {
        self.file_count = self.file_count + other.file_count;
        self.total_bytes = self.total_bytes + other.total_bytes;
    }
}

// ----------------------------------------------------------------------------
// .dumboignore
// ----------------------------------------------------------------------------

/// The entries of a `.dumboignore` text with lines `ls`: each line trimmed;
/// blank lines and lines that start with `#` are no entries.
pub open spec fn ignore_entries(ls: Seq<Seq<char>>) -> Seq<Seq<char>>
    decreases ls.len(),
{
    if ls.len() == 0 {
        Seq::empty()
    } else {
        let rest = ignore_entries(ls.drop_last());
        let t = trim(ls.last());
        if t.len() > 0 && t[0] != '#' {
            rest.push(t)
        } else {
            rest
        }
    }
}

/// The names that a `.dumboignore` text lists (see `ignore_entries`).
pub fn parse_dumboignore(content: &str) -> (r: Vec<String>)
    ensures
        string_texts(r@) == ignore_entries(lines(content@)),
{
    let v = chars_of(content);
    let ranges = line_ranges(&v);
    let ghost ls = lines(v@);
    let mut r: Vec<String> = Vec::new();
    let mut i: usize = 0;
    proof {
        assert(ls.take(0) =~= Seq::<Seq<char>>::empty());
        assert(string_texts(r@) =~= Seq::<Seq<char>>::empty());
    }
    while i < ranges.len()
        invariant
            i <= ranges@.len(),
            ls == lines(v@),
            v@ == content@,
            ranges@.len() == ls.len(),
            forall|k: int|
                0 <= k < ranges@.len() ==> {
                    &&& (#[trigger] ranges@[k]).0 <= ranges@[k].1 <= v@.len()
                    &&& v@.subrange(ranges@[k].0 as int, ranges@[k].1 as int) == ls[k]
                },
            string_texts(r@) == ignore_entries(ls.take(i as int)),
        decreases ranges@.len() - i,
    {
        let (lo, hi) = ranges[i];
        let (a, b) = trim_indices(&v, lo, hi);
        proof {
            assert(ls.take(i + 1).drop_last() =~= ls.take(i as int));
            assert(ls.take(i + 1).last() == ls[i as int]);
        }
        if a < b && v[a] != '#' {
            let entry = string_of_range(&v, a, b);
            proof {
                assert(string_texts(r@.push(entry)) =~= string_texts(r@).push(entry@));
            }
            r.push(entry);
        }
        i = i + 1;
    }
    proof {
        assert(ls.take(ranges@.len() as int) =~= ls);
    }
    r
}

// ----------------------------------------------------------------------------
// Text of the output
// ----------------------------------------------------------------------------

/// The Markdown block of one gathered file: its path as a heading, then its
/// text without trailing white space in a code fence labelled by language.
pub open spec fn file_block_text(path: Seq<char>, content: Seq<char>) -> Seq<char> {
    "### `"@ + path + "`\n\n```"@ + hint_for(or_empty(extension_spec(path))) + seq!['\n']
        + trim_end(content) + "\n```\n\n"@
}

/// The Markdown block of the file at `path` holding `content`.
pub fn file_block(path: &str, content: &str) -> (r: String)
    ensures
        r@ == file_block_text(path@, content@),
{
    let mut out = String::new();
    push_str(&mut out, "### `");
    push_str(&mut out, path);
    push_str(&mut out, "`\n\n```");
    push_str(&mut out, lang_hint(path));
    push_char(&mut out, '\n');
    let v = chars_of(content);
    let end = trim_end_index(&v, 0, v.len());
    assert(v@.subrange(0, v@.len() as int) =~= v@);
    push_range(&mut out, &v, 0, end);
    push_str(&mut out, "\n```\n\n");
    assert(out@ =~= file_block_text(path@, content@));
    out
}

/// The section of the project directory `dir`: its file name, or `root`
/// when it has none (such as `.`).
pub open spec fn section_of(dir: Seq<char>) -> Seq<char> {
    match file_name_spec(dir) {
        Some(n) => n,
        None => "root"@,
    }
}

/// The section of the project directory `dir` (see `section_of`).
pub fn section_name(dir: &str) -> (r: String)
    ensures
        r@ == section_of(dir@),
{
    match file_name(dir) {
        Some(n) => n,
        None => "root".to_owned(),
    }
}

/// The part of the output file name for a section: `output` for `root`.
pub open spec fn output_part(section: Seq<char>) -> Seq<char> {
    if section == "root"@ {
        "output"@
    } else {
        section
    }
}

/// The name of the output file for the sections run at once:
/// `dumbo_<a>_<b>.md`.
pub open spec fn output_name_of(sections: Seq<Seq<char>>) -> Seq<char> {
    "dumbo_"@ + join(sections.map_values(|s: Seq<char>| output_part(s)), seq!['_']) + ".md"@
}

/// The name of the output file for the sections run at once (see `output_name_of`).
pub fn output_file_name(sections: &Vec<String>) -> (r: String)
    ensures
        r@ == output_name_of(string_texts(sections@)),
{
    let ghost parts = string_texts(sections@).map_values(|s: Seq<char>| output_part(s));
    let mut body = String::new();
    let mut i: usize = 0;
    proof {
        assert(parts.take(0) =~= Seq::<Seq<char>>::empty());
    }
    while i < sections.len()
        invariant
            i <= sections@.len(),
            parts == string_texts(sections@).map_values(|s: Seq<char>| output_part(s)),
            body@ == join(parts.take(i as int), seq!['_']),
        decreases sections@.len() - i,
    {
        if i > 0 {
            push_char(&mut body, '_');
        }
        let s = sections[i].as_str();
        if str_equal(s, "root") {
            push_str(&mut body, "output");
        } else {
            push_str(&mut body, s);
        }
        proof {
            let t = parts.take(i + 1);
            assert(t.drop_last() =~= parts.take(i as int));
            assert(t.last() == output_part(sections@[i as int]@));
            if i == 0 {
                assert(body@ =~= t[0]);
            }
        }
        i = i + 1;
    }
    proof {
        assert(parts.take(sections@.len() as int) =~= parts);
    }
    let mut out = String::new();
    push_str(&mut out, "dumbo_");
    push_str(&mut out, body.as_str());
    push_str(&mut out, ".md");
    assert(out@ =~= output_name_of(string_texts(sections@)));
    out
}

/// The heading of one section in the output: the section and its directory,
/// the tree of the directory in a code fence, then the heading of the file
/// contents.
pub open spec fn tree_header_text(section: Seq<char>, dir: Seq<char>, tree: Seq<char>) -> Seq<char> {
    "# ["@ + section + "] — "@ + dir + "\n\n```\n"@ + dir + "/\n"@ + tree
        + "```\n\n# File Contents\n\n"@
}

/// The heading of one section in the output (see `tree_header_text`).
pub fn tree_header(section: &str, dir: &str, tree: &str) -> (r: String)
    ensures
        r@ == tree_header_text(section@, dir@, tree@),
{
    let mut out = String::new();
    push_str(&mut out, "# [");
    push_str(&mut out, section);
    push_str(&mut out, "] — ");
    push_str(&mut out, dir);
    push_str(&mut out, "\n\n```\n");
    push_str(&mut out, dir);
    push_str(&mut out, "/\n");
    push_str(&mut out, tree);
    push_str(&mut out, "```\n\n# File Contents\n\n");
    assert(out@ =~= tree_header_text(section@, dir@, tree@));
    out
}

} // verus!
