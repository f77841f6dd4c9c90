//! What holds of the library as a whole.
use vstd::multiset::Multiset;
use vstd::prelude::*;
use crate::config::{add_lang, config_from_parts, merge, ConfigSpec};
use crate::lang::{find_lang_spec, lang_named, spec_languages, LangSpec};
use crate::config::{config_from_ext, empty_config};
use crate::text::{first_of, is_white, lemma_first_of, lemma_first_of_bounds, lines, split_on, trim_end, trim_start};
use crate::path::{extension_spec, file_name_spec, final_component, last_of, lemma_last_of, lemma_last_of_props};
use crate::config::{hint_for, as_double, halvings, round_half_even, two_to, universal_extension_names, universal_file_names, included, or_empty};
use crate::run::ignore_entries;
use crate::cli::{clipboard_flags, command_of, diff_flags, dir_words, dirs_after, CommandSpec};
use crate::diff::{changed_file_block_text, changed_section_text, concat_all, file_blocks_text};
use crate::text::trim;
use crate::tree::{
    entry_less, files_at, gathered_paths, insert_sorted, level_order, listed, shown, shown_upto,
    sort_indices, text_less, tree_file_paths, tree_order, TreeEntry,
};

verus! {

broadcast use vstd::seq_lib::group_to_multiset_ensures;

// ----------------------------------------------------------------------------
// The order of names and entries
// ----------------------------------------------------------------------------

/// No name comes before itself.
pub proof fn law_text_less_irreflexive(x: Seq<char>)
    ensures
        !text_less(x, x),
    decreases x.len(),
{
    if x.len() > 0 {
        law_text_less_irreflexive(x.drop_first());
    }
}

/// Of two different names, one comes before the other.
pub proof fn law_text_less_total(x: Seq<char>, y: Seq<char>)
    ensures
        x == y || text_less(x, y) || text_less(y, x),
    decreases x.len(),
{
    if x.len() > 0 && y.len() > 0 && x[0] == y[0] {
        law_text_less_total(x.drop_first(), y.drop_first());
        if x.drop_first() == y.drop_first() {
            assert(x =~= seq![x[0]] + x.drop_first());
            assert(y =~= seq![y[0]] + y.drop_first());
        }
    } else if x.len() > 0 && y.len() > 0 {
        assert((x[0] as u32) != (y[0] as u32)) by {
            if (x[0] as u32) == (y[0] as u32) {
                vstd::utf8::char_u32_cast(x[0], x[0] as u32);
                vstd::utf8::char_u32_cast(y[0], y[0] as u32);
                assert(((x[0] as u32) as char) == ((y[0] as u32) as char));
            }
        }
    } else if x.len() == 0 && y.len() == 0 {
        assert(x =~= y);
    }
}

/// The order of names is transitive.
pub proof fn law_text_less_transitive(x: Seq<char>, y: Seq<char>, z: Seq<char>)
    requires
        text_less(x, y),
        text_less(y, z),
    ensures
        text_less(x, z),
    decreases x.len(),
{
    if x.len() > 0 && y.len() > 0 && z.len() > 0 && x[0] == y[0] && y[0] == z[0] {
        law_text_less_transitive(x.drop_first(), y.drop_first(), z.drop_first());
    }
}

/// No name comes both before and after another.
pub proof fn law_text_less_asymmetric(x: Seq<char>, y: Seq<char>)
    requires
        text_less(x, y),
    ensures
        !text_less(y, x),
{
    if text_less(y, x) {
        law_text_less_transitive(x, y, x);
        law_text_less_irreflexive(x);
    }
}

proof fn lemma_entry_less_asymmetric(a: TreeEntry, b: TreeEntry)
    requires
        entry_less(a, b),
    ensures
        !entry_less(b, a),
{
    if a.is_dir == b.is_dir {
        law_text_less_asymmetric(a.name@, b.name@);
    }
}

/// If `a` does not come after `b` nor `b` after `c`, `a` does not come after `c`.
proof fn lemma_entry_not_less_transitive(a: TreeEntry, b: TreeEntry, c: TreeEntry)
    requires
        !entry_less(a, b),
        !entry_less(b, c),
    ensures
        !entry_less(a, c),
{
    if entry_less(a, c) {
        if a.is_dir == b.is_dir && b.is_dir == c.is_dir {
            law_text_less_total(a.name@, b.name@);
            if text_less(b.name@, a.name@) {
                law_text_less_transitive(b.name@, a.name@, c.name@);
            }
        }
    }
}

// ----------------------------------------------------------------------------
// The tree order
// ----------------------------------------------------------------------------

/// Whether no entry of `s` comes before one that stands earlier.
pub open spec fn in_tree_order(entries: Seq<TreeEntry>, s: Seq<int>) -> bool {
    forall|i: int, j: int|
        0 <= i < j < s.len() ==> !entry_less(entries[#[trigger] s[j]], entries[#[trigger] s[i]])
}

proof fn lemma_insert_sorted_multiset(entries: Seq<TreeEntry>, s: Seq<int>, x: int)
    ensures
        insert_sorted(entries, s, x).to_multiset() == s.to_multiset().insert(x),
    decreases s.len(),
{
    if s.len() == 0 || !entry_less(entries[x], entries[s.last()]) {
    } else {
        lemma_insert_sorted_multiset(entries, s.drop_last(), x);
        assert(s.drop_last().push(s.last()) =~= s);
        assert(s.to_multiset() =~= s.drop_last().to_multiset().insert(s.last()));
        assert(insert_sorted(entries, s, x).to_multiset() =~= s.to_multiset().insert(x));
    }
}

proof fn lemma_insert_sorted_in_order(entries: Seq<TreeEntry>, s: Seq<int>, x: int)
    requires
        in_tree_order(entries, s),
    ensures
        in_tree_order(entries, insert_sorted(entries, s, x)),
    decreases s.len(),
{
    let r = insert_sorted(entries, s, x);
    if s.len() == 0 {
    } else if !entry_less(entries[x], entries[s.last()]) {
        assert forall|i: int, j: int| 0 <= i < j < r.len() implies !entry_less(
            entries[#[trigger] r[j]],
            entries[#[trigger] r[i]],
        ) by {
            if j == r.len() - 1 {
                if i < s.len() - 1 {
                    assert(!entry_less(entries[s[s.len() - 1]], entries[s[i]]));
                    lemma_entry_not_less_transitive(entries[x], entries[s.last()], entries[s[i]]);
                }
            } else {
                assert(r[i] == s[i] && r[j] == s[j]);
            }
        }
    } else {
        let t = s.drop_last();
        assert forall|i: int, j: int| 0 <= i < j < t.len() implies !entry_less(
            entries[#[trigger] t[j]],
            entries[#[trigger] t[i]],
        ) by {
            assert(t[i] == s[i] && t[j] == s[j]);
        }
        lemma_insert_sorted_in_order(entries, t, x);
        lemma_insert_sorted_multiset(entries, t, x);
        let u = insert_sorted(entries, t, x);
        assert forall|i: int, j: int| 0 <= i < j < r.len() implies !entry_less(
            entries[#[trigger] r[j]],
            entries[#[trigger] r[i]],
        ) by {
            if j == r.len() - 1 {
                let y = u[i];
                assert(u.to_multiset().count(y) > 0);
                assert(t.to_multiset().insert(x).count(y) > 0);
                if y == x {
                    lemma_entry_less_asymmetric(entries[x], entries[s.last()]);
                } else {
                    assert(t.to_multiset().count(y) > 0);
                    assert(t.contains(y));
                    let k = choose|k: int| 0 <= k < t.len() && t[k] == y;
                    assert(s[k] == y);
                    assert(!entry_less(entries[s[s.len() - 1]], entries[s[k]]));
                }
            } else {
                assert(r[i] == u[i] && r[j] == u[j]);
            }
        }
    }
}

proof fn lemma_sort_indices(entries: Seq<TreeEntry>, idx: Seq<int>)
    ensures
        in_tree_order(entries, sort_indices(entries, idx)),
        sort_indices(entries, idx).to_multiset() == idx.to_multiset(),
    decreases idx.len(),
{
    if idx.len() > 0 {
        lemma_sort_indices(entries, idx.drop_last());
        lemma_insert_sorted_in_order(entries, sort_indices(entries, idx.drop_last()), idx.last());
        lemma_insert_sorted_multiset(entries, sort_indices(entries, idx.drop_last()), idx.last());
        assert(idx.drop_last().push(idx.last()) =~= idx);
    } else {
        assert(idx.to_multiset() =~= Multiset::empty());
        assert(sort_indices(entries, idx).to_multiset() =~= Multiset::empty());
    }
}

proof fn lemma_shown_upto(entries: Seq<TreeEntry>, config: ConfigSpec, extra: Seq<Seq<char>>, n: int, i: int)
    ensures
        shown_upto(entries, config, extra, n).to_multiset().count(i) == (if 0 <= i < n && shown(
            entries[i],
            config,
            extra,
        ) {
            1nat
        } else {
            0nat
        }),
    decreases n,
{
    if n > 0 {
        lemma_shown_upto(entries, config, extra, n - 1, i);
    } else {
        assert(shown_upto(entries, config, extra, n).to_multiset() =~= Multiset::empty());
    }
}

/// The tree lists the shown entries of a directory, directories first and
/// then by name: no entry comes before one that it follows.
pub proof fn law_tree_order_sorted(entries: Seq<TreeEntry>, config: ConfigSpec, extra: Seq<Seq<char>>)
    ensures
        in_tree_order(entries, tree_order(entries, config, extra)),
{
    lemma_sort_indices(entries, shown_upto(entries, config, extra, entries.len() as int));
}

/// The tree lists each shown entry of a directory exactly once, and nothing
/// else.
pub proof fn law_tree_order_lists_shown_once(
    entries: Seq<TreeEntry>,
    config: ConfigSpec,
    extra: Seq<Seq<char>>,
    i: int,
)
    ensures
        tree_order(entries, config, extra).to_multiset().count(i) == (if 0 <= i < entries.len()
            && shown(entries[i], config, extra) {
            1nat
        } else {
            0nat
        }),
{
    lemma_sort_indices(entries, shown_upto(entries, config, extra, entries.len() as int));
    lemma_shown_upto(entries, config, extra, entries.len() as int, i);
}

// ----------------------------------------------------------------------------
// Configurations
// ----------------------------------------------------------------------------

proof fn lemma_merge(acc: Seq<Seq<char>>, items: Seq<Seq<char>>)
    ensures
        acc.no_duplicates() ==> merge(acc, items).no_duplicates(),
        forall|x: Seq<char>| #[trigger]
            merge(acc, items).contains(x) <==> acc.contains(x) || items.contains(x),
        merge(acc, items).len() >= acc.len(),
        merge(acc, items).subrange(0, acc.len() as int) == acc,
    decreases items.len(),
{
    if items.len() > 0 {
        let m = merge(acc, items.drop_last());
        lemma_merge(acc, items.drop_last());
        assert forall|x: Seq<char>| #[trigger]
            merge(acc, items).contains(x) <==> acc.contains(x) || items.contains(x) by {
            if items.contains(x) && !items.drop_last().contains(x) {
                let k = choose|k: int| 0 <= k < items.len() && items[k] == x;
                if k < items.len() - 1 {
                    assert(items.drop_last()[k] == x);
                }
            }
            if items.drop_last().contains(x) {
                let k = choose|k: int| 0 <= k < items.len() - 1 && items.drop_last()[k] == x;
                assert(items[k] == x);
            }
            if !m.contains(items.last()) && merge(acc, items).contains(x) && !m.contains(x) {
                assert(x == items.last()) by {
                    let k = choose|k: int| 0 <= k < m.len() + 1 && m.push(items.last())[k] == x;
                    if k < m.len() {
                        assert(m[k] == x);
                    }
                }
            }
            if m.contains(x) && !m.contains(items.last()) {
                let k = choose|k: int| 0 <= k < m.len() && m[k] == x;
                assert(m.push(items.last())[k] == x);
            }
            if x == items.last() && !m.contains(items.last()) {
                assert(m.push(items.last())[m.len() as int] == x);
            }
        }
        if !m.contains(items.last()) {
            assert(m.push(items.last()).subrange(0, acc.len() as int) =~= m.subrange(
                0,
                acc.len() as int,
            ));
        }
    }
}

proof fn lemma_merge_contained(acc: Seq<Seq<char>>, items: Seq<Seq<char>>)
    requires
        forall|i: int| 0 <= i < items.len() ==> acc.contains(#[trigger] items[i]),
    ensures
        merge(acc, items) == acc,
    decreases items.len(),
{
    if items.len() > 0 {
        assert forall|i: int| 0 <= i < items.len() - 1 implies acc.contains(
            #[trigger] items.drop_last()[i],
        ) by {
            assert(items.drop_last()[i] == items[i]);
        }
        lemma_merge_contained(acc, items.drop_last());
        assert(acc.contains(items[items.len() - 1]));
    }
}

proof fn lemma_merge_fresh(items: Seq<Seq<char>>)
    requires
        items.no_duplicates(),
    ensures
        merge(Seq::empty(), items) == items,
    decreases items.len(),
{
    if items.len() > 0 {
        let t = items.drop_last();
        assert(t.no_duplicates());
        lemma_merge_fresh(t);
        assert(!t.contains(items.last())) by {
            if t.contains(items.last()) {
                let k = choose|k: int| 0 <= k < t.len() && t[k] == items.last();
                assert(items[k] == items[items.len() - 1]);
            }
        }
        assert(t.push(items.last()) =~= items);
    }
}

/// Every language named lists each extension and each ignored directory
/// once, however often it is named: no configuration lists one twice.
pub proof fn law_config_lists_each_once(parts: Seq<Seq<char>>)
    ensures
        config_from_parts(parts) matches Ok(c) ==> c.extensions.no_duplicates()
            && c.ignored_dirs.no_duplicates(),
    decreases parts.len(),
{
    if parts.len() > 0 {
        law_config_lists_each_once(parts.drop_last());
        if let Ok(c) = config_from_parts(parts.drop_last()) {
            if let Some(l) = find_lang_spec(trim(parts.last())) {
                lemma_merge(c.extensions, l.extensions);
                lemma_merge(c.ignored_dirs, l.ignored_dirs);
            }
        }
    }
}

/// The language named at position `k` of `parts`, if it is one.
pub open spec fn lang_at(parts: Seq<Seq<char>>, k: int) -> Option<LangSpec> {
    find_lang_spec(trim(parts[k]))
}

/// Whether the language named at position `k` has the extension `x`.
pub open spec fn names_extension(parts: Seq<Seq<char>>, k: int, x: Seq<char>) -> bool {
    match lang_at(parts, k) {
        Some(l) => l.extensions.contains(x),
        None => false,
    }
}

/// Whether the language named at position `k` ignores the directory `x`.
pub open spec fn names_ignored_dir(parts: Seq<Seq<char>>, k: int, x: Seq<char>) -> bool {
    match lang_at(parts, k) {
        Some(l) => l.ignored_dirs.contains(x),
        None => false,
    }
}

/// A configuration holds an extension exactly when one of the languages
/// named has it, and an ignored directory exactly when one of them has it.
pub proof fn law_config_is_union(parts: Seq<Seq<char>>, x: Seq<char>)
    ensures
        config_from_parts(parts) matches Ok(c) ==> {
            &&& c.extensions.contains(x) <==> exists|k: int|
                0 <= k < parts.len() && #[trigger] names_extension(parts, k, x)
            &&& c.ignored_dirs.contains(x) <==> exists|k: int|
                0 <= k < parts.len() && #[trigger] names_ignored_dir(parts, k, x)
        },
    decreases parts.len(),
{
    if parts.len() > 0 {
        let p = parts.drop_last();
        let n = parts.len() - 1;
        law_config_is_union(p, x);
        assert forall|k: int| 0 <= k < p.len() implies lang_at(p, k) == lang_at(parts, k) by {
            assert(p[k] == parts[k]);
        }
        if let Ok(c0) = config_from_parts(p) {
            if let Some(l) = lang_at(parts, n) {
                lemma_merge(c0.extensions, l.extensions);
                lemma_merge(c0.ignored_dirs, l.ignored_dirs);
                let c = config_from_parts(parts)->Ok_0;
                if c.extensions.contains(x) {
                    if c0.extensions.contains(x) {
                        let k = choose|k: int| 0 <= k < p.len() && #[trigger] names_extension(p, k, x);
                        assert(names_extension(parts, k, x));
                    } else {
                        assert(names_extension(parts, n, x));
                    }
                }
                if exists|k: int| 0 <= k < parts.len() && #[trigger] names_extension(parts, k, x) {
                    let k = choose|k: int| 0 <= k < parts.len() && #[trigger] names_extension(parts, k, x);
                    if k < n {
                        assert(names_extension(p, k, x));
                    }
                }
                if c.ignored_dirs.contains(x) {
                    if c0.ignored_dirs.contains(x) {
                        let k = choose|k: int| 0 <= k < p.len() && #[trigger] names_ignored_dir(p, k, x);
                        assert(names_ignored_dir(parts, k, x));
                    } else {
                        assert(names_ignored_dir(parts, n, x));
                    }
                }
                if exists|k: int| 0 <= k < parts.len() && #[trigger] names_ignored_dir(parts, k, x) {
                    let k = choose|k: int| 0 <= k < parts.len() && #[trigger] names_ignored_dir(parts, k, x);
                    if k < n {
                        assert(names_ignored_dir(p, k, x));
                    }
                }
            }
        }
    }
}

/// A configuration fails exactly when a name is no language, and then on
/// the first such name.
pub proof fn law_config_error(parts: Seq<Seq<char>>)
    ensures
        config_from_parts(parts) is Ok <==> forall|k: int|
            0 <= k < parts.len() ==> #[trigger] lang_at(parts, k) is Some,
        config_from_parts(parts) matches Err(e) ==> exists|k: int|
            0 <= k < parts.len() && #[trigger] lang_at(parts, k) is None && e == trim(parts[k])
                && forall|j: int| 0 <= j < k ==> #[trigger] lang_at(parts, j) is Some,
    decreases parts.len(),
{
    if parts.len() > 0 {
        let p = parts.drop_last();
        law_config_error(p);
        assert forall|k: int| 0 <= k < p.len() implies lang_at(p, k) == lang_at(parts, k) by {
            assert(p[k] == parts[k]);
        }
        if config_from_parts(p) is Ok && lang_at(parts, parts.len() - 1) is None {
            let k = parts.len() - 1;
            assert forall|j: int| 0 <= j < k implies #[trigger] lang_at(parts, j) is Some by {
                assert(lang_at(p, j) is Some);
            }
        }
        if config_from_parts(p) is Err {
            let e = config_from_parts(p)->Err_0;
            let k = choose|k: int|
                0 <= k < p.len() && #[trigger] lang_at(p, k) is None && e == trim(p[k])
                    && forall|j: int| 0 <= j < k ==> #[trigger] lang_at(p, j) is Some;
            assert(lang_at(parts, k) is None && e == trim(parts[k]));
            assert forall|j: int| 0 <= j < k implies #[trigger] lang_at(parts, j) is Some by {
                assert(lang_at(p, j) is Some);
            }
        }
    }
}

/// Naming a language again changes nothing.
pub proof fn law_add_lang_twice(c: ConfigSpec, l: LangSpec)
    ensures
        add_lang(add_lang(c, l), l) == add_lang(c, l),
{
    lemma_merge(c.extensions, l.extensions);
    lemma_merge(c.ignored_dirs, l.ignored_dirs);
    let m = add_lang(c, l);
    assert forall|i: int| 0 <= i < l.extensions.len() implies m.extensions.contains(
        #[trigger] l.extensions[i],
    ) by {
        assert(l.extensions.contains(l.extensions[i]));
    }
    assert forall|i: int| 0 <= i < l.ignored_dirs.len() implies m.ignored_dirs.contains(
        #[trigger] l.ignored_dirs[i],
    ) by {
        assert(l.ignored_dirs.contains(l.ignored_dirs[i]));
    }
    lemma_merge_contained(m.extensions, l.extensions);
    lemma_merge_contained(m.ignored_dirs, l.ignored_dirs);
}

/// Naming more languages keeps what the first ones gave, in the same order,
/// and adds behind it.
pub proof fn law_config_grows_at_end(p: Seq<Seq<char>>, q: Seq<Seq<char>>)
    ensures
        config_from_parts(p) matches Ok(c1) ==> (config_from_parts(p + q) matches Ok(c2) ==> {
            &&& c2.extensions.len() >= c1.extensions.len()
            &&& c2.extensions.subrange(0, c1.extensions.len() as int) == c1.extensions
            &&& c2.ignored_dirs.len() >= c1.ignored_dirs.len()
            &&& c2.ignored_dirs.subrange(0, c1.ignored_dirs.len() as int) == c1.ignored_dirs
        }),
    decreases q.len(),
{
    if q.len() == 0 {
        assert(p + q =~= p);
        if let Ok(c1) = config_from_parts(p) {
            assert(c1.extensions.subrange(0, c1.extensions.len() as int) =~= c1.extensions);
            assert(c1.ignored_dirs.subrange(0, c1.ignored_dirs.len() as int) =~= c1.ignored_dirs);
        }
    } else {
        let q0 = q.drop_last();
        law_config_grows_at_end(p, q0);
        assert((p + q).drop_last() =~= p + q0);
        if let Ok(c1) = config_from_parts(p) {
            if let Ok(c2) = config_from_parts(p + q) {
                let c0 = config_from_parts(p + q0)->Ok_0;
                let l = find_lang_spec(trim((p + q).last()))->Some_0;
                lemma_merge(c0.extensions, l.extensions);
                lemma_merge(c0.ignored_dirs, l.ignored_dirs);
                assert(c2.extensions.subrange(0, c1.extensions.len() as int) =~= c2.extensions.subrange(
                    0,
                    c0.extensions.len() as int,
                ).subrange(0, c1.extensions.len() as int));
                assert(c2.ignored_dirs.subrange(0, c1.ignored_dirs.len() as int) =~= c2.ignored_dirs.subrange(
                    0,
                    c0.ignored_dirs.len() as int,
                ).subrange(0, c1.ignored_dirs.len() as int));
            }
        }
    }
}

/// The lists of each supported language name each extension and each
/// directory once, and no two languages have the same name.
pub proof fn law_language_table()
    ensures
        forall|i: int|
            0 <= i < spec_languages().len() ==> (#[trigger] spec_languages()[i]).extensions.no_duplicates()
                && spec_languages()[i].ignored_dirs.no_duplicates(),
        forall|i: int, j: int|
            0 <= i < j < spec_languages().len() ==> (#[trigger] spec_languages()[i]).name
                != (#[trigger] spec_languages()[j]).name,
{
    reveal_strlit(".git");
    reveal_strlit(".gradle");
    reveal_strlit(".venv");
    reveal_strlit("__pycache__");
    reveal_strlit("build");
    reveal_strlit("c");
    reveal_strlit("cc");
    reveal_strlit("cmake-build-debug");
    reveal_strlit("cmake-build-release");
    reveal_strlit("cpp");
    reveal_strlit("cxx");
    reveal_strlit("dist");
    reveal_strlit("go");
    reveal_strlit("h");
    reveal_strlit("hpp");
    reveal_strlit("java");
    reveal_strlit("js");
    reveal_strlit("jsx");
    reveal_strlit("node_modules");
    reveal_strlit("py");
    reveal_strlit("rs");
    reveal_strlit("target");
    reveal_strlit("ts");
    reveal_strlit("tsx");
    reveal_strlit("vendor");
    reveal_strlit("venv");
    let t = spec_languages();
    assert forall|i: int|
        0 <= i < t.len() implies (#[trigger] t[i]).extensions.no_duplicates()
            && t[i].ignored_dirs.no_duplicates() by {
        if i == 0 {
            assert(t[0].ignored_dirs[0].len() != t[0].ignored_dirs[1].len());
        } else if i == 1 {
            assert(t[1].ignored_dirs[0].len() != t[1].ignored_dirs[1].len());
            assert(t[1].ignored_dirs[0].len() != t[1].ignored_dirs[2].len());
            assert(t[1].ignored_dirs[0].len() != t[1].ignored_dirs[3].len());
            assert(t[1].ignored_dirs[1].len() != t[1].ignored_dirs[2].len());
            assert(t[1].ignored_dirs[1][0] != t[1].ignored_dirs[3][0]);
            assert(t[1].ignored_dirs[2].len() != t[1].ignored_dirs[3].len());
        } else if i == 2 {
            assert(t[2].extensions[0].len() != t[2].extensions[1].len());
            assert(t[2].ignored_dirs[0].len() != t[2].ignored_dirs[1].len());
            assert(t[2].ignored_dirs[0].len() != t[2].ignored_dirs[2].len());
            assert(t[2].ignored_dirs[1][0] != t[2].ignored_dirs[2][0]);
        } else if i == 3 {
            assert(t[3].extensions[0].len() != t[3].extensions[1].len());
            assert(t[3].ignored_dirs[0].len() != t[3].ignored_dirs[1].len());
            assert(t[3].ignored_dirs[0].len() != t[3].ignored_dirs[2].len());
            assert(t[3].ignored_dirs[1][0] != t[3].ignored_dirs[2][0]);
        } else if i == 4 {
            assert(t[4].ignored_dirs[0].len() != t[4].ignored_dirs[1].len());
        } else if i == 5 {
            assert(t[5].ignored_dirs[0].len() != t[5].ignored_dirs[1].len());
            assert(t[5].ignored_dirs[0].len() != t[5].ignored_dirs[2].len());
            assert(t[5].ignored_dirs[0].len() != t[5].ignored_dirs[3].len());
            assert(t[5].ignored_dirs[1].len() != t[5].ignored_dirs[2].len());
            assert(t[5].ignored_dirs[1].len() != t[5].ignored_dirs[3].len());
            assert(t[5].ignored_dirs[2].len() != t[5].ignored_dirs[3].len());
        } else if i == 6 {
            assert(t[6].extensions[0][0] != t[6].extensions[1][0]);
            assert(t[6].ignored_dirs[0].len() != t[6].ignored_dirs[1].len());
            assert(t[6].ignored_dirs[0].len() != t[6].ignored_dirs[2].len());
            assert(t[6].ignored_dirs[0].len() != t[6].ignored_dirs[3].len());
            assert(t[6].ignored_dirs[1].len() != t[6].ignored_dirs[2].len());
            assert(t[6].ignored_dirs[1].len() != t[6].ignored_dirs[3].len());
            assert(t[6].ignored_dirs[2].len() != t[6].ignored_dirs[3].len());
        } else if i == 7 {
            assert(t[7].extensions[0].len() != t[7].extensions[1].len());
            assert(t[7].extensions[0][1] != t[7].extensions[2][1]);
            assert(t[7].extensions[0][0] != t[7].extensions[3][0]);
            assert(t[7].extensions[0].len() != t[7].extensions[4].len());
            assert(t[7].extensions[1].len() != t[7].extensions[2].len());
            assert(t[7].extensions[1].len() != t[7].extensions[3].len());
            assert(t[7].extensions[1].len() != t[7].extensions[4].len());
            assert(t[7].extensions[2][0] != t[7].extensions[3][0]);
            assert(t[7].extensions[2].len() != t[7].extensions[4].len());
            assert(t[7].extensions[3].len() != t[7].extensions[4].len());
            assert(t[7].ignored_dirs[0].len() != t[7].ignored_dirs[1].len());
            assert(t[7].ignored_dirs[0].len() != t[7].ignored_dirs[2].len());
            assert(t[7].ignored_dirs[0].len() != t[7].ignored_dirs[3].len());
            assert(t[7].ignored_dirs[1].len() != t[7].ignored_dirs[2].len());
            assert(t[7].ignored_dirs[1].len() != t[7].ignored_dirs[3].len());
            assert(t[7].ignored_dirs[2].len() != t[7].ignored_dirs[3].len());
        }
    }
    assert forall|i: int, j: int| 0 <= i < j < t.len() implies (#[trigger] t[i]).name
        != (#[trigger] t[j]).name by {
        assert(t[i].name.len() != t[j].name.len() || t[i].name[0] != t[j].name[0] || t[i].name[1]
            != t[j].name[1]);
    }
}

proof fn lemma_lang_named_member(table: Seq<LangSpec>, name: Seq<char>)
    ensures
        lang_named(table, name) matches Some(l) ==> exists|i: int|
            0 <= i < table.len() && #[trigger] table[i] == l,
    decreases table.len(),
{
    if table.len() > 0 && table[0].name != name {
        lemma_lang_named_member(table.drop_first(), name);
        if let Some(l) = lang_named(table, name) {
            let i = choose|i: int| 0 <= i < table.len() - 1 && #[trigger] table.drop_first()[i] == l;
            assert(table[i + 1] == l);
        }
    }
}

/// Naming one language, with no comma, gives exactly its extensions and
/// ignored directories, in its order.
pub proof fn law_single_language(name: Seq<char>)
    requires
        !name.contains(','),
    ensures
        find_lang_spec(trim(name)) matches Some(l) ==> config_from_ext(name) == Ok::<
            ConfigSpec,
            Seq<char>,
        >(ConfigSpec { extensions: l.extensions, ignored_dirs: l.ignored_dirs }),
{
    assert forall|j: int| 0 <= j < name.len() implies name[j] != ',' by {
        if name[j] == ',' {
            assert(name.contains(','));
        }
    }
    lemma_first_of(name, ',', name.len() as int);
    assert(split_on(name, ',') == seq![name]);
    let parts = seq![name];
    assert(parts.drop_last() =~= Seq::<Seq<char>>::empty());
    if let Some(l) = find_lang_spec(trim(name)) {
        law_language_table();
        lemma_lang_named_member(spec_languages(), trim(name));
        let i = choose|i: int| 0 <= i < spec_languages().len() && #[trigger] spec_languages()[i] == l;
        assert(l.extensions.no_duplicates());
        lemma_merge_fresh(l.extensions);
        lemma_merge_fresh(l.ignored_dirs);
        assert(config_from_parts(parts.drop_last()) == Ok::<ConfigSpec, Seq<char>>(empty_config()));
        assert(parts.last() == name);
        assert(config_from_parts(parts) == Ok::<ConfigSpec, Seq<char>>(add_lang(empty_config(), l)));
    }
}

// ----------------------------------------------------------------------------
// File names and extensions
// ----------------------------------------------------------------------------

proof fn lemma_final_component_shape(p: Seq<char>)
    ensures
        final_component(p) matches Some(n) ==> n.len() > 0 && !n.contains('/') && n != seq!['.'],
    decreases p.len(),
{
    let k = last_of(p, '/');
    lemma_last_of_props(p, '/');
    let seg = p.subrange(k + 1, p.len() as int);
    if seg.len() > 0 && seg != seq!['.'] {
        assert(!seg.contains('/')) by {
            if seg.contains('/') {
                let j = choose|j: int| 0 <= j < seg.len() && seg[j] == '/';
                assert(p[j + k + 1] == '/');
            }
        }
    } else if k >= 0 {
        lemma_final_component_shape(p.subrange(0, k));
    }
}

/// A file name is never empty, holds no `/`, and is neither `.` nor `..`.
pub proof fn law_file_name_shape(p: Seq<char>)
    ensures
        file_name_spec(p) matches Some(n) ==> n.len() > 0 && !n.contains('/') && n != seq!['.']
            && n != seq!['.', '.'],
{
    lemma_final_component_shape(p);
}

/// An extension is what follows the last `.` of the file name, and that dot
/// is not the name's first character.
pub proof fn law_extension_ends_file_name(p: Seq<char>)
    ensures
        extension_spec(p) matches Some(e) ==> file_name_spec(p) matches Some(n) && n.len() >= e.len()
            + 2 && n.subrange(n.len() - e.len(), n.len() as int) == e && n[n.len() - e.len() - 1]
            == '.' && !e.contains('.'),
{
    if let Some(e) = extension_spec(p) {
        let n = file_name_spec(p)->Some_0;
        let d = last_of(n, '.');
        lemma_last_of_props(n, '.');
        assert(n.subrange(n.len() - e.len(), n.len() as int) =~= e);
        assert(!e.contains('.')) by {
            if e.contains('.') {
                let j = choose|j: int| 0 <= j < e.len() && e[j] == '.';
                assert(n[d + 1 + j] == '.');
            }
        }
    }
}

/// The files `Dockerfile`, `docker-compose.yml`, `docker-compose.yaml` and
/// `Makefile`, and the files with the extensions `yaml`, `yml`, `md` and
/// `toml`, are gathered whatever the languages.
pub proof fn law_universal_files_always_included(p: Seq<char>, config: ConfigSpec)
    requires
        universal_file_names().contains(or_empty(file_name_spec(p)))
            || universal_extension_names().contains(or_empty(extension_spec(p))),
    ensures
        included(p, config),
{
}

/// A name without `/` placed under a parent directory keeps its file name
/// and its extension.
proof fn lemma_name_under_parent(parent: Seq<char>, n: Seq<char>)
    requires
        !n.contains('/'),
        n.len() > 0,
        n != seq!['.'],
    ensures
        file_name_spec(parent + seq!['/'] + n) == file_name_spec(n),
        extension_spec(parent + seq!['/'] + n) == extension_spec(n),
{
    let p = parent + seq!['/'] + n;
    assert forall|j: int| parent.len() < j < p.len() implies p[j] != '/' by {
        assert(p[j] == n[j - parent.len() - 1]);
    }
    lemma_last_of(p, '/', parent.len() as int);
    lemma_last_of(n, '/', -1);
    assert(p.subrange(parent.len() + 1 as int, p.len() as int) =~= n);
    assert(n.subrange(0, n.len() as int) =~= n);
    assert(final_component(p) == Some(n));
    assert(final_component(n) == Some(n));
}

/// The universal files and the files with a universal extension are
/// gathered under any parent directory too, whatever the languages.
pub proof fn law_universal_files_included_anywhere(parent: Seq<char>, name: Seq<char>, config: ConfigSpec)
    requires
        !name.contains('/'),
        universal_file_names().contains(or_empty(file_name_spec(name)))
            || universal_extension_names().contains(or_empty(extension_spec(name))),
    ensures
        included(parent + seq!['/'] + name, config),
{
    if name.len() == 0 || name == seq!['.'] {
        lemma_last_of(name, '/', -1);
        assert(name.subrange(0, name.len() as int) =~= name);
        assert(final_component(name) is None);
        reveal_strlit("Dockerfile");
        reveal_strlit("docker-compose.yml");
        reveal_strlit("docker-compose.yaml");
        reveal_strlit("Makefile");
        reveal_strlit("yaml");
        reveal_strlit("yml");
        reveal_strlit("md");
        reveal_strlit("toml");
        let e = Seq::<char>::empty();
        assert(or_empty(file_name_spec(name)) == e);
        assert(or_empty(extension_spec(name)) == e);
        assert forall|j: int| 0 <= j < 4 implies universal_file_names()[j] != e by {
            assert(universal_file_names()[j].len() > 0);
        }
        assert forall|j: int| 0 <= j < 4 implies universal_extension_names()[j] != e by {
            assert(universal_extension_names()[j].len() > 0);
        }
    } else {
        lemma_name_under_parent(parent, name);
    }
}

/// The code-fence names that a file can get.
pub open spec fn hint_names() -> Seq<Seq<char>> {
    seq![
        "rust"@,
        "python"@,
        "javascript"@,
        "typescript"@,
        "go"@,
        "java"@,
        "c"@,
        "cpp"@,
        "toml"@,
        "yaml"@,
        "markdown"@,
        ""@,
    ]
}

/// Every extension of a supported language and every universal extension
/// gets a non-empty code-fence name, and the name is always one of
/// `hint_names` (it depends on the extension alone: see `lang_hint`).
pub proof fn law_listed_extensions_have_hints()
    ensures
        forall|i: int, j: int|
            0 <= i < spec_languages().len() && 0 <= j < spec_languages()[i].extensions.len()
                ==> #[trigger] hint_for(spec_languages()[i].extensions[j]).len() > 0,
        forall|j: int|
            0 <= j < universal_extension_names().len() ==> #[trigger] hint_for(
                universal_extension_names()[j],
            ).len() > 0,
        forall|e: Seq<char>| hint_names().contains(#[trigger] hint_for(e)),
{
    reveal_strlit("rs");
    reveal_strlit("py");
    reveal_strlit("js");
    reveal_strlit("jsx");
    reveal_strlit("ts");
    reveal_strlit("tsx");
    reveal_strlit("go");
    reveal_strlit("java");
    reveal_strlit("c");
    reveal_strlit("h");
    reveal_strlit("cpp");
    reveal_strlit("cc");
    reveal_strlit("cxx");
    reveal_strlit("hpp");
    reveal_strlit("toml");
    reveal_strlit("yaml");
    reveal_strlit("yml");
    reveal_strlit("md");
    reveal_strlit("rust");
    reveal_strlit("python");
    reveal_strlit("javascript");
    reveal_strlit("typescript");
    reveal_strlit("markdown");
    let t = spec_languages();
    assert forall|i: int, j: int|
        0 <= i < t.len() && 0 <= j < t[i].extensions.len() implies #[trigger] hint_for(
        t[i].extensions[j],
    ).len() > 0 by {
        let e = t[i].extensions[j];
        if i == 0 || i == 1 || i == 4 || i == 5 {
            assert(j == 0);
        } else if i == 2 || i == 3 || i == 6 {
            assert(j == 0 || j == 1);
        } else {
            assert(i == 7);
            assert(0 <= j < 5);
        }
    }
    let u = universal_extension_names();
    assert forall|j: int| 0 <= j < u.len() implies #[trigger] hint_for(u[j]).len() > 0 by {
        assert(0 <= j < 4);
    }
    assert forall|e: Seq<char>| hint_names().contains(#[trigger] hint_for(e)) by {
        let h = hint_for(e);
        let k = if h == "rust"@ {
            0
        } else if h == "python"@ {
            1
        } else if h == "javascript"@ {
            2
        } else if h == "typescript"@ {
            3
        } else if h == "go"@ {
            4
        } else if h == "java"@ {
            5
        } else if h == "c"@ {
            6
        } else if h == "cpp"@ {
            7
        } else if h == "toml"@ {
            8
        } else if h == "yaml"@ {
            9
        } else if h == "markdown"@ {
            10
        } else {
            11
        };
        assert(hint_names()[k] == h);
    }
}

/// A directory that one of the languages ignores is never listed, nor any
/// entry whose name the extra ignore list (`.dumboignore`) holds, at any depth.
pub proof fn law_ignored_names_never_listed(
    name: Seq<char>,
    is_dir: bool,
    config: ConfigSpec,
    extra: Seq<Seq<char>>,
)
    ensures
        extra.contains(name) ==> !listed(name, is_dir, config, extra),
        is_dir && config.ignored_dirs.contains(name) ==> !listed(name, is_dir, config, extra),
{
}

/// A file is listed exactly when it is gathered and not ignored by name;
/// which directories a language ignores does not matter for files.
pub proof fn law_files_listed_when_gathered(name: Seq<char>, config: ConfigSpec, extra: Seq<Seq<char>>)
    ensures
        listed(name, false, config, extra) == (included(name, config) && !extra.contains(name)),
{
}

// ----------------------------------------------------------------------------
// .dumboignore
// ----------------------------------------------------------------------------

proof fn lemma_trim_end_shape(s: Seq<char>)
    ensures
        trim_end(s).len() <= s.len(),
        trim_end(s) == s.subrange(0, trim_end(s).len() as int),
        trim_end(s).len() > 0 ==> !is_white(trim_end(s).last()),
    decreases s.len(),
{
    if s.len() > 0 && is_white(s.last()) {
        lemma_trim_end_shape(s.drop_last());
        assert(s.drop_last().subrange(0, trim_end(s).len() as int) =~= s.subrange(
            0,
            trim_end(s).len() as int,
        ));
    } else {
        assert(s.subrange(0, s.len() as int) =~= s);
    }
}

proof fn lemma_trim_start_shape(s: Seq<char>)
    ensures
        trim_start(s).len() <= s.len(),
        trim_start(s) == s.subrange(s.len() - trim_start(s).len(), s.len() as int),
        trim_start(s).len() > 0 ==> !is_white(trim_start(s)[0]),
    decreases s.len(),
{
    if s.len() > 0 && is_white(s[0]) {
        lemma_trim_start_shape(s.drop_first());
        let t = trim_start(s);
        assert(s.drop_first().subrange(s.len() - 1 - t.len(), s.len() - 1) =~= s.subrange(
            s.len() - t.len(),
            s.len() as int,
        ));
    } else {
        assert(s.subrange(0, s.len() as int) =~= s);
    }
}

/// The entries of a `.dumboignore` are never empty, never comments, and
/// start and end with no white space.
pub proof fn law_ignore_entries_shape(content: Seq<char>)
    ensures
        forall|i: int|
            0 <= i < ignore_entries(lines(content)).len() ==> {
                let e = #[trigger] ignore_entries(lines(content))[i];
                &&& e.len() > 0
                &&& e[0] != '#'
                &&& !is_white(e[0])
                &&& !is_white(e.last())
            },
{
    lemma_ignore_entries_shape(lines(content));
}

proof fn lemma_ignore_entries_shape(ls: Seq<Seq<char>>)
    ensures
        forall|i: int|
            0 <= i < ignore_entries(ls).len() ==> {
                let e = #[trigger] ignore_entries(ls)[i];
                &&& e.len() > 0
                &&& e[0] != '#'
                &&& !is_white(e[0])
                &&& !is_white(e.last())
            },
    decreases ls.len(),
{
    if ls.len() > 0 {
        lemma_ignore_entries_shape(ls.drop_last());
        let l = ls.last();
        lemma_trim_end_shape(l);
        lemma_trim_start_shape(trim_end(l));
        let t = trim_start(trim_end(l));
        if t.len() > 0 {
            assert(t.last() == trim_end(l).last());
        }
        let r = ignore_entries(ls);
        let r0 = ignore_entries(ls.drop_last());
        assert forall|i: int| 0 <= i < r.len() implies {
            let e = #[trigger] r[i];
            &&& e.len() > 0
            &&& e[0] != '#'
            &&& !is_white(e[0])
            &&& !is_white(e.last())
        } by {
            if i < r0.len() {
                assert(r[i] == r0[i]);
            }
        }
    }
}

// ----------------------------------------------------------------------------
// Sizes
// ----------------------------------------------------------------------------

/// Rounding half to even lands within half a step of the exact quotient.
pub proof fn law_round_half_even_nearest(num: nat, den: nat)
    requires
        den > 0,
    ensures
        2 * (round_half_even(num, den) * den - num) <= den,
        2 * (num - round_half_even(num, den) * den) <= den,
{
    let q = num / den;
    let r = num % den;
    vstd::arithmetic::div_mod::lemma_fundamental_div_mod(num as int, den as int);
    assert((q + 1) * den == q * den + den) by (nonlinear_arith);
    assert(den * q == q * den) by (nonlinear_arith);
}

/// A byte count below 2^53 converts to a double exactly.
pub proof fn law_as_double_exact(n: nat)
    requires
        n < 0x20_0000_0000_0000,
    ensures
        as_double(n) == n,
{
    assert(halvings(n) == 0);
    assert(two_to(0) == 1);
    assert(n / 1 == n);
    assert(n % 1 == 0);
}

// ----------------------------------------------------------------------------
// Configurations as first occurrences
// ----------------------------------------------------------------------------

/// The names of `s` in order, each at its first occurrence: a name is kept
/// where it does not occur earlier in `s`.
pub open spec fn dedup_first(s: Seq<Seq<char>>) -> Seq<Seq<char>>
    decreases s.len(),
{
    if s.len() == 0 {
        Seq::empty()
    } else {
        let kept = dedup_first(s.drop_last());
        if s.drop_last().contains(s.last()) {
            kept
        } else {
            kept.push(s.last())
        }
    }
}

proof fn lemma_merge_from_empty(s: Seq<Seq<char>>)
    ensures
        merge(Seq::empty(), s) == dedup_first(s),
    decreases s.len(),
{
    if s.len() > 0 {
        lemma_merge_from_empty(s.drop_last());
        lemma_merge(Seq::empty(), s.drop_last());
        assert(!Seq::<Seq<char>>::empty().contains(s.last()));
    }
}

/// The languages that `parts` name (meaningful when each part names one).
pub open spec fn named_langs(parts: Seq<Seq<char>>) -> Seq<LangSpec> {
    Seq::new(parts.len(), |k: int| lang_at(parts, k)->Some_0)
}

/// The extension lists of `ls`, one after the other.
pub open spec fn all_extensions(ls: Seq<LangSpec>) -> Seq<Seq<char>>
    decreases ls.len(),
{
    if ls.len() == 0 {
        Seq::empty()
    } else {
        all_extensions(ls.drop_last()) + ls.last().extensions
    }
}

/// The ignored-directory lists of `ls`, one after the other.
pub open spec fn all_ignored_dirs(ls: Seq<LangSpec>) -> Seq<Seq<char>>
    decreases ls.len(),
{
    if ls.len() == 0 {
        Seq::empty()
    } else {
        all_ignored_dirs(ls.drop_last()) + ls.last().ignored_dirs
    }
}

proof fn lemma_merge_concat(acc: Seq<Seq<char>>, x: Seq<Seq<char>>, y: Seq<Seq<char>>)
    ensures
        merge(acc, x + y) == merge(merge(acc, x), y),
    decreases y.len(),
{
    if y.len() == 0 {
        assert(x + y =~= x);
    } else {
        lemma_merge_concat(acc, x, y.drop_last());
        assert((x + y).drop_last() =~= x + y.drop_last());
        assert((x + y).last() == y.last());
    }
}

proof fn lemma_all_lists_concat(a: Seq<LangSpec>, b: Seq<LangSpec>)
    ensures
        all_extensions(a + b) == all_extensions(a) + all_extensions(b),
        all_ignored_dirs(a + b) == all_ignored_dirs(a) + all_ignored_dirs(b),
    decreases b.len(),
{
    if b.len() == 0 {
        assert(a + b =~= a);
        assert(all_extensions(a) + all_extensions(b) =~= all_extensions(a));
        assert(all_ignored_dirs(a) + all_ignored_dirs(b) =~= all_ignored_dirs(a));
    } else {
        lemma_all_lists_concat(a, b.drop_last());
        assert((a + b).drop_last() =~= a + b.drop_last());
        assert((a + b).last() == b.last());
        assert(all_extensions(a) + all_extensions(b.drop_last()) + b.last().extensions
            =~= all_extensions(a) + (all_extensions(b.drop_last()) + b.last().extensions));
        assert(all_ignored_dirs(a) + all_ignored_dirs(b.drop_last()) + b.last().ignored_dirs
            =~= all_ignored_dirs(a) + (all_ignored_dirs(b.drop_last()) + b.last().ignored_dirs));
    }
}

/// The configuration of a list of names, where every name is a language:
/// its extensions are the first occurrences of the extension lists of the
/// named languages, one after the other, and so are its ignored directories.
pub proof fn law_config_is_first_occurrences(s: Seq<char>)
    requires
        forall|k: int|
            0 <= k < split_on(s, ',').len() ==> #[trigger] lang_at(split_on(s, ','), k) is Some,
    ensures
        config_from_ext(s) matches Ok(c) && c.extensions == dedup_first(
            all_extensions(named_langs(split_on(s, ','))),
        ) && c.ignored_dirs == dedup_first(all_ignored_dirs(named_langs(split_on(s, ',')))),
{
    let parts = split_on(s, ',');
    law_config_error(parts);
    lemma_config_merges(parts);
    let ls = named_langs(parts);
    lemma_merge_from_empty(all_extensions(ls));
    lemma_merge_from_empty(all_ignored_dirs(ls));
}

proof fn lemma_config_merges(parts: Seq<Seq<char>>)
    ensures
        config_from_parts(parts) matches Ok(c) ==> {
            &&& c.extensions == merge(Seq::empty(), all_extensions(named_langs(parts)))
            &&& c.ignored_dirs == merge(Seq::empty(), all_ignored_dirs(named_langs(parts)))
        },
    decreases parts.len(),
{
    if parts.len() > 0 {
        let p = parts.drop_last();
        lemma_config_merges(p);
        if let Ok(c) = config_from_parts(parts) {
            let c0 = config_from_parts(p)->Ok_0;
            let l = lang_at(parts, parts.len() - 1)->Some_0;
            assert(named_langs(parts).drop_last() =~= named_langs(p)) by {
                assert forall|k: int| 0 <= k < p.len() implies lang_at(p, k) == lang_at(
                    parts,
                    k,
                ) by {
                    assert(p[k] == parts[k]);
                }
            }
            assert(named_langs(parts).last() == l);
            lemma_merge_concat(Seq::empty(), all_extensions(named_langs(p)), l.extensions);
            lemma_merge_concat(Seq::empty(), all_ignored_dirs(named_langs(p)), l.ignored_dirs);
        }
    } else {
        assert(named_langs(parts) =~= Seq::<LangSpec>::empty());
    }
}

proof fn lemma_split_concat(a: Seq<char>, b: Seq<char>, sep: char)
    ensures
        split_on(a + seq![sep] + b, sep) == split_on(a, sep) + split_on(b, sep),
    decreases a.len(),
{
    let w = a + seq![sep] + b;
    lemma_first_of_bounds(a, sep);
    let k = first_of(a, sep);
    assert forall|j: int| 0 <= j < k implies w[j] != sep by {
        assert(w[j] == a[j]);
    }
    if k == a.len() {
        assert(w[k] == sep);
        lemma_first_of(w, sep, k);
        assert(split_on(a, sep) == seq![a]);
        assert(w.subrange(0, k) =~= a);
        assert(w.subrange(k + 1, w.len() as int) =~= b);
        assert(split_on(w, sep) =~= split_on(a, sep) + split_on(b, sep));
    } else {
        assert(w[k] == a[k]);
        lemma_first_of(w, sep, k);
        let a2 = a.subrange(k + 1, a.len() as int);
        lemma_split_concat(a2, b, sep);
        assert(w.subrange(0, k) =~= a.subrange(0, k));
        assert(w.subrange(k + 1, w.len() as int) =~= a2 + seq![sep] + b);
        assert(split_on(w, sep) =~= split_on(a, sep) + split_on(b, sep));
    }
}

proof fn lemma_error_stays_appended(p: Seq<Seq<char>>, q: Seq<Seq<char>>)
    requires
        config_from_parts(p) is Err,
    ensures
        config_from_parts(p + q) == config_from_parts(p),
    decreases q.len(),
{
    if q.len() == 0 {
        assert(p + q =~= p);
    } else {
        lemma_error_stays_appended(p, q.drop_last());
        assert((p + q).drop_last() =~= p + q.drop_last());
    }
}

/// Repeating the whole list of names changes nothing: the same
/// configuration, or the same first unknown name.
pub proof fn law_repeated_list_changes_nothing(s: Seq<char>)
    ensures
        config_from_ext(s + seq![','] + s) == config_from_ext(s),
{
    let p = split_on(s, ',');
    lemma_split_concat(s, s, ',');
    let pp = p + p;
    if config_from_parts(p) is Err {
        lemma_error_stays_appended(p, p);
    } else {
        let c = config_from_parts(p)->Ok_0;
        law_config_error(p);
        assert forall|k: int| 0 <= k < pp.len() implies #[trigger] lang_at(pp, k) is Some by {
            if k < p.len() {
                assert(pp[k] == p[k]);
                assert(lang_at(p, k) is Some);
            } else {
                assert(pp[k] == p[k - p.len()]);
                assert(lang_at(p, k - p.len()) is Some);
            }
        }
        law_config_error(pp);
        let c2 = config_from_parts(pp)->Ok_0;
        lemma_config_merges(p);
        lemma_config_merges(pp);
        assert(named_langs(pp) =~= named_langs(p) + named_langs(p)) by {
            assert forall|k: int| 0 <= k < pp.len() implies #[trigger] named_langs(pp)[k] == (
            named_langs(p) + named_langs(p))[k] by {
                if k < p.len() {
                    assert(pp[k] == p[k]);
                } else {
                    assert(pp[k] == p[k - p.len()]);
                }
            }
        }
        lemma_all_lists_concat(named_langs(p), named_langs(p));
        let fe = all_extensions(named_langs(p));
        let fd = all_ignored_dirs(named_langs(p));
        lemma_merge_concat(Seq::empty(), fe, fe);
        lemma_merge_concat(Seq::empty(), fd, fd);
        lemma_merge(Seq::empty(), fe);
        lemma_merge(Seq::empty(), fd);
        assert forall|i: int| 0 <= i < fe.len() implies c.extensions.contains(#[trigger] fe[i]) by {
            assert(fe.contains(fe[i]));
        }
        assert forall|i: int| 0 <= i < fd.len() implies c.ignored_dirs.contains(#[trigger] fd[i]) by {
            assert(fd.contains(fd[i]));
        }
        lemma_merge_contained(c.extensions, fe);
        lemma_merge_contained(c.ignored_dirs, fd);
        assert(c2 =~= c);
    }
}

// ----------------------------------------------------------------------------
// The tree and the gathered files
// ----------------------------------------------------------------------------

/// The paths that one entry contributes.
pub open spec fn piece(
    entries: Seq<TreeEntry>,
    i: int,
    base: Seq<char>,
    config: ConfigSpec,
    extra: Seq<Seq<char>>,
    fuel: nat,
    sorted: bool,
) -> Seq<Seq<char>> {
    files_at(entries, seq![i], 0, base, config, extra, fuel, sorted)
}

proof fn lemma_files_at_unfold(
    entries: Seq<TreeEntry>,
    s: Seq<int>,
    k: int,
    base: Seq<char>,
    config: ConfigSpec,
    extra: Seq<Seq<char>>,
    fuel: nat,
    sorted: bool,
)
    requires
        0 <= k < s.len(),
    ensures
        files_at(entries, s, k, base, config, extra, fuel, sorted) == piece(
            entries,
            s[k],
            base,
            config,
            extra,
            fuel,
            sorted,
        ) + files_at(entries, s, k + 1, base, config, extra, fuel, sorted),
{
    let one = seq![s[k]];
    assert(files_at(entries, one, 1, base, config, extra, fuel, sorted) =~= Seq::<Seq<char>>::empty());
    let p = piece(entries, s[k], base, config, extra, fuel, sorted);
    assert(p == files_at(entries, one, 0, base, config, extra, fuel, sorted));
    assert(one[0] == s[k]);
    assert(p =~= p + Seq::<Seq<char>>::empty());
}

proof fn lemma_files_at_push(
    entries: Seq<TreeEntry>,
    s: Seq<int>,
    x: int,
    k: int,
    base: Seq<char>,
    config: ConfigSpec,
    extra: Seq<Seq<char>>,
    fuel: nat,
    sorted: bool,
)
    requires
        0 <= k <= s.len(),
    ensures
        files_at(entries, s.push(x), k, base, config, extra, fuel, sorted) == files_at(
            entries,
            s,
            k,
            base,
            config,
            extra,
            fuel,
            sorted,
        ) + piece(entries, x, base, config, extra, fuel, sorted),
    decreases s.len() - k,
{
    let t = s.push(x);
    lemma_files_at_unfold(entries, t, k, base, config, extra, fuel, sorted);
    if k == s.len() {
        assert(t[k] == x);
        assert(files_at(entries, t, k + 1, base, config, extra, fuel, sorted) =~= Seq::<Seq<char>>::empty());
        assert(files_at(entries, s, k, base, config, extra, fuel, sorted) =~= Seq::<Seq<char>>::empty());
        let p = piece(entries, x, base, config, extra, fuel, sorted);
        assert(p + Seq::<Seq<char>>::empty() =~= Seq::<Seq<char>>::empty() + p);
    } else {
        lemma_files_at_push(entries, s, x, k + 1, base, config, extra, fuel, sorted);
        lemma_files_at_unfold(entries, s, k, base, config, extra, fuel, sorted);
        assert(t[k] == s[k]);
        let a = piece(entries, s[k], base, config, extra, fuel, sorted);
        let b = files_at(entries, s, k + 1, base, config, extra, fuel, sorted);
        let c = piece(entries, x, base, config, extra, fuel, sorted);
        assert(a + (b + c) =~= (a + b) + c);
    }
}

proof fn lemma_files_at_insert(
    entries: Seq<TreeEntry>,
    s: Seq<int>,
    x: int,
    base: Seq<char>,
    config: ConfigSpec,
    extra: Seq<Seq<char>>,
    fuel: nat,
    sorted: bool,
)
    ensures
        files_at(entries, insert_sorted(entries, s, x), 0, base, config, extra, fuel, sorted).to_multiset()
            == files_at(entries, s, 0, base, config, extra, fuel, sorted).to_multiset().add(
            piece(entries, x, base, config, extra, fuel, sorted).to_multiset(),
        ),
    decreases s.len(),
{
    broadcast use vstd::seq_lib::lemma_multiset_commutative;

    if s.len() == 0 || !entry_less(entries[x], entries[s.last()]) {
        lemma_files_at_push(entries, s, x, 0, base, config, extra, fuel, sorted);
    } else {
        let t = s.drop_last();
        let y = s.last();
        lemma_files_at_insert(entries, t, x, base, config, extra, fuel, sorted);
        let u = insert_sorted(entries, t, x);
        lemma_files_at_push(entries, u, y, 0, base, config, extra, fuel, sorted);
        lemma_files_at_push(entries, t, y, 0, base, config, extra, fuel, sorted);
        assert(t.push(y) =~= s);
        let fu = files_at(entries, u, 0, base, config, extra, fuel, sorted);
        let ft = files_at(entries, t, 0, base, config, extra, fuel, sorted);
        let px = piece(entries, x, base, config, extra, fuel, sorted);
        let py = piece(entries, y, base, config, extra, fuel, sorted);
        assert((fu + py).to_multiset() =~= ft.to_multiset().add(px.to_multiset()).add(py.to_multiset()));
        assert((ft + py).to_multiset() =~= ft.to_multiset().add(py.to_multiset()));
        assert(ft.to_multiset().add(px.to_multiset()).add(py.to_multiset()) =~= ft.to_multiset().add(
            py.to_multiset(),
        ).add(px.to_multiset()));
    }
}

proof fn lemma_files_at_sort(
    entries: Seq<TreeEntry>,
    idx: Seq<int>,
    base: Seq<char>,
    config: ConfigSpec,
    extra: Seq<Seq<char>>,
    fuel: nat,
    sorted: bool,
)
    ensures
        files_at(entries, sort_indices(entries, idx), 0, base, config, extra, fuel, sorted).to_multiset()
            == files_at(entries, idx, 0, base, config, extra, fuel, sorted).to_multiset(),
    decreases idx.len(),
{
    broadcast use vstd::seq_lib::lemma_multiset_commutative;

    if idx.len() == 0 {
        assert(files_at(entries, idx, 0, base, config, extra, fuel, sorted) =~= Seq::<Seq<char>>::empty());
        assert(files_at(entries, sort_indices(entries, idx), 0, base, config, extra, fuel, sorted)
            =~= Seq::<Seq<char>>::empty());
    } else {
        let t = idx.drop_last();
        lemma_files_at_sort(entries, t, base, config, extra, fuel, sorted);
        lemma_files_at_insert(entries, sort_indices(entries, t), idx.last(), base, config, extra, fuel, sorted);
        lemma_files_at_push(entries, t, idx.last(), 0, base, config, extra, fuel, sorted);
        assert(t.push(idx.last()) =~= idx);
    }
}

proof fn lemma_files_at_same_pieces(
    entries: Seq<TreeEntry>,
    s: Seq<int>,
    k: int,
    base: Seq<char>,
    config: ConfigSpec,
    extra: Seq<Seq<char>>,
    fuel: nat,
)
    requires
        0 <= k <= s.len(),
        forall|j: int|
            0 <= j < s.len() ==> (#[trigger] piece(entries, s[j], base, config, extra, fuel, true)).to_multiset()
                == piece(entries, s[j], base, config, extra, fuel, false).to_multiset(),
    ensures
        files_at(entries, s, k, base, config, extra, fuel, true).to_multiset() == files_at(
            entries,
            s,
            k,
            base,
            config,
            extra,
            fuel,
            false,
        ).to_multiset(),
    decreases s.len() - k,
{
    broadcast use vstd::seq_lib::lemma_multiset_commutative;

    if k == s.len() {
        assert(files_at(entries, s, k, base, config, extra, fuel, true) =~= Seq::<Seq<char>>::empty());
        assert(files_at(entries, s, k, base, config, extra, fuel, false) =~= Seq::<Seq<char>>::empty());
    } else {
        lemma_files_at_same_pieces(entries, s, k + 1, base, config, extra, fuel);
        lemma_files_at_unfold(entries, s, k, base, config, extra, fuel, true);
        lemma_files_at_unfold(entries, s, k, base, config, extra, fuel, false);
        assert(piece(entries, s[k], base, config, extra, fuel, true).to_multiset() == piece(
            entries,
            s[k],
            base,
            config,
            extra,
            fuel,
            false,
        ).to_multiset());
    }
}

proof fn lemma_tree_files(
    entries: Seq<TreeEntry>,
    base: Seq<char>,
    config: ConfigSpec,
    extra: Seq<Seq<char>>,
    fuel: nat,
)
    ensures
        files_at(entries, level_order(entries, config, extra, true), 0, base, config, extra, fuel, true).to_multiset()
            == files_at(entries, level_order(entries, config, extra, false), 0, base, config, extra, fuel, false).to_multiset(),
    decreases fuel,
{
    let ord = tree_order(entries, config, extra);
    let shown_idx = shown_upto(entries, config, extra, entries.len() as int);
    assert forall|j: int| 0 <= j < ord.len() implies (#[trigger] piece(
        entries,
        ord[j],
        base,
        config,
        extra,
        fuel,
        true,
    )).to_multiset() == piece(entries, ord[j], base, config, extra, fuel, false).to_multiset() by {
        let i = ord[j];
        let e = entries[i];
        let one = seq![i];
        assert(one[0] == i);
        assert(files_at(entries, one, 1, base, config, extra, fuel, true) =~= Seq::<Seq<char>>::empty());
        assert(files_at(entries, one, 1, base, config, extra, fuel, false) =~= Seq::<Seq<char>>::empty());
        if e.is_dir && fuel > 0 {
            lemma_tree_files(e.children@, crate::tree::join_path(base, e.name@), config, extra, (fuel - 1) as nat);
            let a = files_at(
                e.children@,
                level_order(e.children@, config, extra, true),
                0,
                crate::tree::join_path(base, e.name@),
                config,
                extra,
                (fuel - 1) as nat,
                true,
            );
            let b = files_at(
                e.children@,
                level_order(e.children@, config, extra, false),
                0,
                crate::tree::join_path(base, e.name@),
                config,
                extra,
                (fuel - 1) as nat,
                false,
            );
            assert(piece(entries, i, base, config, extra, fuel, true) =~= a + Seq::<Seq<char>>::empty());
            assert(piece(entries, i, base, config, extra, fuel, false) =~= b + Seq::<Seq<char>>::empty());
            assert(a + Seq::<Seq<char>>::empty() =~= a);
            assert(b + Seq::<Seq<char>>::empty() =~= b);
        } else {
            assert(piece(entries, i, base, config, extra, fuel, true) =~= piece(
                entries,
                i,
                base,
                config,
                extra,
                fuel,
                false,
            ));
        }
    }
    lemma_files_at_same_pieces(entries, ord, 0, base, config, extra, fuel);
    lemma_files_at_sort(entries, shown_idx, base, config, extra, fuel, false);
}

/// The tree shows exactly the files that a run gathers: the paths of the
/// files in the tree and the gathered paths are the same, each as often.
pub proof fn law_tree_shows_gathered_files(
    entries: Seq<TreeEntry>,
    base: Seq<char>,
    config: ConfigSpec,
    extra: Seq<Seq<char>>,
)
    ensures
        tree_file_paths(entries, base, config, extra).to_multiset() == gathered_paths(
            entries,
            base,
            config,
            extra,
        ).to_multiset(),
{
    lemma_tree_files(entries, base, config, extra, crate::tree::depth(entries));
}


// ----------------------------------------------------------------------------
// Directories, changed files and .dumboignore entries
// ----------------------------------------------------------------------------

/// A directory is listed exactly when its name is none of the ignored
/// directories and none of the extra names: names are compared whole, so a
/// name that merely starts with an ignored one (`.github`, `targets`) is
/// still listed.
pub proof fn law_directory_listed_exactly(name: Seq<char>, config: ConfigSpec, extra: Seq<Seq<char>>)
    ensures
        listed(name, true, config, extra) == (!config.ignored_dirs.contains(name) && !extra.contains(
            name,
        )),
{
}

/// The block of each of `files`, in order.
pub open spec fn each_file_block(files: Seq<(String, String)>) -> Seq<Seq<char>> {
    Seq::new(files.len(), |k: int| changed_file_block_text(files[k].0@, files[k].1@))
}

proof fn lemma_file_blocks(files: Seq<(String, String)>)
    ensures
        file_blocks_text(files) == concat_all(each_file_block(files)),
    decreases files.len(),
{
    if files.len() > 0 {
        lemma_file_blocks(files.drop_last());
        assert(each_file_block(files).drop_last() =~= each_file_block(files.drop_last()));
    }
}

/// The part of a directory under "Current state of changed files" holds,
/// for each changed file in order, the block of that file's own path and
/// content, each file once; a directory without changed files gets the
/// note `_No changed files._`.
pub proof fn law_changed_section_blocks(files: Seq<(String, String)>)
    ensures
        files.len() > 0 ==> changed_section_text(files) == concat_all(each_file_block(files)),
        files.len() == 0 ==> changed_section_text(files) == "_No changed files._\n\n"@,
{
    lemma_file_blocks(files);
}

/// Cutting the changed files of a directory in two cuts its blocks in two:
/// the blocks of `a + b` are those of `a` followed by those of `b`.
pub proof fn law_changed_blocks_split(a: Seq<(String, String)>, b: Seq<(String, String)>)
    ensures
        a.len() > 0 && b.len() > 0 ==> changed_section_text(a + b) == changed_section_text(a)
            + changed_section_text(b),
{
    lemma_blocks_concat(a, b);
}

/// A directory with one changed file gets exactly that file's block.
pub proof fn law_single_changed_file(f: (String, String))
    ensures
        changed_section_text(seq![f]) == changed_file_block_text(f.0@, f.1@),
{
    let one = seq![f];
    assert(one.len() == 1);
    assert(one.last() == f);
    assert(one.drop_last() =~= Seq::<(String, String)>::empty());
    assert(file_blocks_text(one.drop_last()) == Seq::<char>::empty());
    assert(file_blocks_text(one) == file_blocks_text(one.drop_last()) + changed_file_block_text(f.0@, f.1@));
    assert(Seq::<char>::empty() + changed_file_block_text(f.0@, f.1@) =~= changed_file_block_text(f.0@, f.1@));
}

proof fn lemma_blocks_concat(a: Seq<(String, String)>, b: Seq<(String, String)>)
    ensures
        file_blocks_text(a + b) == file_blocks_text(a) + file_blocks_text(b),
    decreases b.len(),
{
    if b.len() == 0 {
        assert(a + b =~= a);
        assert(file_blocks_text(a) + Seq::<char>::empty() =~= file_blocks_text(a));
    } else {
        lemma_blocks_concat(a, b.drop_last());
        assert((a + b).drop_last() =~= a + b.drop_last());
        assert((a + b).last() == b.last());
    }
}

/// A line is an entry when, trimmed, it is not empty and does not start
/// with `#`.
pub open spec fn is_entry(t: Seq<char>) -> bool {
    t.len() > 0 && t[0] != '#'
}

/// The entries of a `.dumboignore` text are exactly its trimmed lines that
/// are not empty and do not start with `#`, in order, whatever their
/// position.
pub proof fn law_ignore_entries_are_kept_lines(ls: Seq<Seq<char>>)
    ensures
        ignore_entries(ls) == ls.map_values(|l: Seq<char>| trim(l)).filter(|t: Seq<char>| is_entry(t)),
    decreases ls.len(),
{
    reveal(Seq::filter);
    let f = |l: Seq<char>| trim(l);
    let pred = |t: Seq<char>| is_entry(t);
    if ls.len() > 0 {
        law_ignore_entries_are_kept_lines(ls.drop_last());
        assert(ls.map_values(f).drop_last() =~= ls.drop_last().map_values(f));
        assert(ls.map_values(f).last() == trim(ls.last()));
    } else {
        assert(ls.map_values(f) =~= Seq::<Seq<char>>::empty());
    }
}


// ----------------------------------------------------------------------------
// Code-fence names
// ----------------------------------------------------------------------------

/// The code-fence name of each supported language, in the order of the
/// language table: `rs` files are fenced as `rust`, ... , C++ as `cpp`.
pub open spec fn language_fences() -> Seq<Seq<char>> {
    seq!["rust"@, "python"@, "javascript"@, "typescript"@, "go"@, "java"@, "c"@, "cpp"@]
}

/// The code-fence name of each universal extension (`yaml`, `yml`, `md`,
/// `toml`), in order.
pub open spec fn universal_fences() -> Seq<Seq<char>> {
    seq!["yaml"@, "yaml"@, "markdown"@, "toml"@]
}

/// An extension of a supported language is fenced with the name of the
/// first language in the table that lists it (so `cpp`, `cc`, `cxx` and
/// `hpp` are fenced as `cpp`, and `h`, which C lists first, as `c`); a
/// universal extension is fenced as its kind of text.
pub proof fn law_hint_is_the_language_fence()
    ensures
        forall|i: int, j: int|
            0 <= i < spec_languages().len() && 0 <= j < spec_languages()[i].extensions.len() && (
            forall|i2: int|
                0 <= i2 < i ==> !(#[trigger] spec_languages()[i2]).extensions.contains(
                    spec_languages()[i].extensions[j],
                )) ==> #[trigger] hint_for(spec_languages()[i].extensions[j]) == language_fences()[i],
        forall|j: int|
            0 <= j < universal_extension_names().len() ==> #[trigger] hint_for(
                universal_extension_names()[j],
            ) == universal_fences()[j],
{
    reveal_strlit("rs");
    reveal_strlit("py");
    reveal_strlit("js");
    reveal_strlit("jsx");
    reveal_strlit("ts");
    reveal_strlit("tsx");
    reveal_strlit("go");
    reveal_strlit("java");
    reveal_strlit("c");
    reveal_strlit("h");
    reveal_strlit("cpp");
    reveal_strlit("cc");
    reveal_strlit("cxx");
    reveal_strlit("hpp");
    reveal_strlit("toml");
    reveal_strlit("yaml");
    reveal_strlit("yml");
    reveal_strlit("md");
    assert("rs"@[0] == 'r');
    assert("py"@[0] == 'p');
    assert("js"@[0] == 'j');
    assert("jsx"@[0] == 'j');
    assert("ts"@[0] == 't');
    assert("tsx"@[0] == 't');
    assert("go"@[0] == 'g');
    assert("java"@[0] == 'j');
    assert("cpp"@[0] == 'c');
    assert("cc"@[0] == 'c');
    assert("cxx"@[0] == 'c');
    assert("hpp"@[0] == 'h');
    assert("cpp"@[1] == 'p');
    assert("cxx"@[1] == 'x');
    assert("yaml"@[0] == 'y');
    assert("yml"@[0] == 'y');
    assert("toml"@[0] == 't');
    assert("md"@[0] == 'm');
    let t = spec_languages();
    assert forall|i: int, j: int|
        0 <= i < t.len() && 0 <= j < t[i].extensions.len() && (forall|i2: int|
            0 <= i2 < i ==> !(#[trigger] t[i2]).extensions.contains(t[i].extensions[j]))
        implies #[trigger] hint_for(t[i].extensions[j]) == language_fences()[i] by {
        let f = language_fences();
        if i == 7 && j == 4 {
            assert(t[6].extensions[1] == t[7].extensions[4]);
            assert(t[6].extensions.contains(t[7].extensions[4]));
        } else if i == 0 {
            assert(j == 0 && t[0].extensions[0] == "rs"@ && f[0] == "rust"@);
        } else if i == 1 {
            assert(j == 0 && t[1].extensions[0] == "py"@ && f[1] == "python"@);
        } else if i == 2 {
            assert(f[2] == "javascript"@);
            assert(t[2].extensions[0] == "js"@ && t[2].extensions[1] == "jsx"@);
            assert(hint_for("js"@) == "javascript"@ && hint_for("jsx"@) == "javascript"@);
        } else if i == 3 {
            assert(f[3] == "typescript"@);
            assert(t[3].extensions[0] == "ts"@ && t[3].extensions[1] == "tsx"@);
            assert(hint_for("ts"@) == "typescript"@ && hint_for("tsx"@) == "typescript"@);
        } else if i == 4 {
            assert(j == 0 && t[4].extensions[0] == "go"@ && f[4] == "go"@);
        } else if i == 5 {
            assert(j == 0 && t[5].extensions[0] == "java"@ && f[5] == "java"@);
        } else if i == 6 {
            assert(f[6] == "c"@);
            assert(t[6].extensions[0] == "c"@ && t[6].extensions[1] == "h"@);
            assert(hint_for("c"@) == "c"@ && hint_for("h"@) == "c"@);
        } else {
            assert(i == 7 && 0 <= j < 4);
            assert(f[7] == "cpp"@);
            assert(t[7].extensions[0] == "cpp"@ && t[7].extensions[1] == "cc"@);
            assert(t[7].extensions[2] == "cxx"@ && t[7].extensions[3] == "hpp"@);
            assert(hint_for("cpp"@) == "cpp"@ && hint_for("cc"@) == "cpp"@);
            assert("hpp"@.len() == 3 && "cxx"@.len() == 3 && "c"@.len() == 1 && "h"@.len() == 1);
            assert(hint_for("cxx"@) == "cpp"@);
            assert(hint_for("hpp"@) == "cpp"@);
        }
    }
    let u = universal_extension_names();
    let g = universal_fences();
    assert(u[0] == "yaml"@ && u[1] == "yml"@ && u[2] == "md"@ && u[3] == "toml"@);
    assert(g[0] == "yaml"@ && g[1] == "yaml"@ && g[2] == "markdown"@ && g[3] == "toml"@);
    assert(hint_for("yaml"@) == "yaml"@ && hint_for("yml"@) == "yaml"@);
    assert(hint_for("md"@) == "markdown"@ && hint_for("toml"@) == "toml"@);
    assert forall|j: int| 0 <= j < u.len() implies #[trigger] hint_for(u[j]) == universal_fences()[j] by {
        assert(0 <= j < 4);
    }
}


// ----------------------------------------------------------------------------
// The clipboard option
// ----------------------------------------------------------------------------

/// `run` and `diff` copy to the clipboard exactly when the arguments hold
/// `-c` or `--clipboard`.
pub proof fn law_clipboard_option(args: Seq<Seq<char>>)
    ensures
        command_of(args) matches CommandSpec::Run { clipboard, .. } ==> clipboard == (args.contains(
            "-c"@,
        ) || args.contains("--clipboard"@)),
        command_of(args) matches CommandSpec::Diff { clipboard, .. } ==> clipboard == (args.contains(
            "-c"@,
        ) || args.contains("--clipboard"@)),
{
}

proof fn lemma_dir_words_update(s: Seq<Seq<char>>, j: int, y: Seq<char>, flags: Seq<Seq<char>>)
    requires
        0 <= j < s.len(),
        flags.contains(s[j]),
        flags.contains(y),
    ensures
        dir_words(s.update(j, y), flags) == dir_words(s, flags),
    decreases s.len(),
{
    let t = s.update(j, y);
    if j < s.len() - 1 {
        assert(t.drop_last() =~= s.drop_last().update(j, y));
        lemma_dir_words_update(s.drop_last(), j, y, flags);
        assert(t.last() == s.last());
    } else {
        assert(t.drop_last() =~= s.drop_last());
    }
}

proof fn lemma_dirs_after_update(args: Seq<Seq<char>>, k: int, i: int, y: Seq<char>, flags: Seq<Seq<char>>)
    requires
        0 <= k,
        0 <= i < args.len(),
        flags.contains(args[i]),
        flags.contains(y),
    ensures
        dirs_after(args.update(i, y), k, flags) == dirs_after(args, k, flags),
{
    let a2 = args.update(i, y);
    if k <= args.len() {
        if i >= k {
            assert(a2.skip(k) =~= args.skip(k).update(i - k, y));
            lemma_dir_words_update(args.skip(k), i - k, y, flags);
        } else {
            assert(a2.skip(k) =~= args.skip(k));
        }
    }
}

/// The two spellings of the clipboard option are interchangeable: writing
/// `-c` in place of `--clipboard` after `run` or `diff` gives the same
/// command.
pub proof fn law_clipboard_spellings_interchangeable(args: Seq<Seq<char>>, i: int)
    requires
        2 <= i < args.len(),
        args[1] == "run"@ || args[1] == "diff"@,
        args[i] == "--clipboard"@,
    ensures
        command_of(args.update(i, "-c"@)) == command_of(args),
{
    reveal_strlit("-c");
    reveal_strlit("--clipboard");
    reveal_strlit("-h");
    reveal_strlit("--help");
    reveal_strlit("-v");
    reveal_strlit("--version");
    reveal_strlit("--staged");
    reveal_strlit("run");
    reveal_strlit("diff");
    reveal_strlit("list");
    reveal_strlit("update");
    reveal_strlit("init");
    let y = "-c"@;
    let a2 = args.update(i, y);
    assert(a2[1] == args[1]);
    assert(a2.contains(y)) by {
        assert(a2[i] == y);
    }
    assert(args.contains("--clipboard"@)) by {
        assert(args[i] == "--clipboard"@);
    }
    assert forall|x: Seq<char>| x != y && x != "--clipboard"@ implies #[trigger] a2.contains(x)
        == args.contains(x) by {
        if a2.contains(x) {
            let k = choose|k: int| 0 <= k < a2.len() && a2[k] == x;
            assert(args[k] == x);
        }
        if args.contains(x) {
            let k = choose|k: int| 0 <= k < args.len() && args[k] == x;
            assert(a2[k] == x);
        }
    }
    assert(y.len() == 2 && y[1] == 'c' && "--clipboard"@.len() == 11);
    assert("-h"@ != y && "-h"@ != "--clipboard"@) by {
        assert("-h"@.len() == 2 && "-h"@[1] == 'h');
    }
    assert("--help"@ != y && "--help"@ != "--clipboard"@) by {
        assert("--help"@.len() == 6);
    }
    assert("-v"@ != y && "-v"@ != "--clipboard"@) by {
        assert("-v"@.len() == 2 && "-v"@[1] == 'v');
    }
    assert("--version"@ != y && "--version"@ != "--clipboard"@) by {
        assert("--version"@.len() == 9);
    }
    assert("--staged"@ != y && "--staged"@ != "--clipboard"@) by {
        assert("--staged"@.len() == 8);
    }
    assert(a2.contains("-h"@) == args.contains("-h"@));
    assert(a2.contains("--help"@) == args.contains("--help"@));
    assert(a2.contains("-v"@) == args.contains("-v"@));
    assert(a2.contains("--version"@) == args.contains("--version"@));
    assert(a2.contains("--staged"@) == args.contains("--staged"@));
    assert(clipboard_flags()[0] == "--clipboard"@ && clipboard_flags()[1] == y);
    assert(diff_flags()[0] == "--clipboard"@ && diff_flags()[1] == y);
    lemma_dirs_after_update(args, 2, i, y, clipboard_flags());
    lemma_dirs_after_update(args, 2, i, y, diff_flags());
    lemma_dirs_after_update(args, 3, i, y, diff_flags());
    if i == 2 {
        assert(a2[2][0] == '-' && args[2][0] == '-');
    } else {
        assert(a2[2] == args[2]);
    }
}

} // verus!
