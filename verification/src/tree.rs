use vstd::prelude::*;
use crate::config::{included, is_included_file, lemma_texts_contains, Config, ConfigSpec};
use crate::text::{chars_of, contains_str, contains_string, push_char, push_str};

verus! {

/// One entry of a directory listing: its name, whether it is a directory,
/// and, for a directory, its own listing.
pub struct TreeEntry {
    pub name: String,
    pub is_dir: bool,
    pub children: Vec<TreeEntry>,
}

/// The text of each string of a list.
pub open spec fn string_texts(list: Seq<String>) -> Seq<Seq<char>> {
    list.map_values(|s: String| s@)
}

/// Whether the entry `name` of a directory is listed and gathered: a
/// directory unless its name is an ignored directory or one of the extra
/// names; a file when it is gathered under `config` (see `included`) and its
/// name is none of the extra names.
pub open spec fn listed(
    name: Seq<char>,
    is_dir: bool,
    config: ConfigSpec,
    extra: Seq<Seq<char>>,
) -> bool {
    if is_dir {
        !config.ignored_dirs.contains(name) && !extra.contains(name)
    } else {
        included(name, config) && !extra.contains(name)
    }
}

/// Whether the entry `name` of a directory is listed (see `listed`).
pub fn is_listed(name: &str, is_dir: bool, config: &Config, extra_ignored: &Vec<String>) -> (r: bool)
    ensures
        r == listed(name@, is_dir, config@, string_texts(extra_ignored@)),
{
    proof {
        lemma_string_texts_contains(extra_ignored@, name@);
        lemma_texts_contains(config.ignored_dirs@, name@);
    }
    if is_dir {
        !contains_str(config.ignored_dirs.as_slice(), name) && !contains_string(extra_ignored, name)
    } else {
        is_included_file(name, config) && !contains_string(extra_ignored, name)
    }
}

/// Whether the tree shows the entry (see `listed`).
pub open spec fn shown(e: TreeEntry, config: ConfigSpec, extra: Seq<Seq<char>>) -> bool {
    listed(e.name@, e.is_dir, config, extra)
}

/// Whether `x` comes before `y` character by character (code point order).
pub open spec fn text_less(x: Seq<char>, y: Seq<char>) -> bool
    decreases x.len(),
{
    if x.len() == 0 {
        y.len() > 0
    } else if y.len() == 0 {
        false
    } else if x[0] != y[0] {
        (x[0] as u32) < (y[0] as u32)
    } else {
        text_less(x.drop_first(), y.drop_first())
    }
}

/// The tree order: directories first, then by name.
pub open spec fn entry_less(a: TreeEntry, b: TreeEntry) -> bool {
    (a.is_dir && !b.is_dir) || (a.is_dir == b.is_dir && text_less(a.name@, b.name@))
}

/// The indices below `n` of the entries that the tree shows, in listing order.
pub open spec fn shown_upto(
    entries: Seq<TreeEntry>,
    config: ConfigSpec,
    extra: Seq<Seq<char>>,
    n: int,
) -> Seq<int>
    decreases n,
{
    if n <= 0 {
        Seq::empty()
    } else if shown(entries[n - 1], config, extra) {
        shown_upto(entries, config, extra, n - 1).push(n - 1)
    } else {
        shown_upto(entries, config, extra, n - 1)
    }
}

/// `sorted` with the index `x` put after every entry that does not come
/// after it.
pub open spec fn insert_sorted(entries: Seq<TreeEntry>, sorted: Seq<int>, x: int) -> Seq<int>
    decreases sorted.len(),
{
    if sorted.len() == 0 || !entry_less(entries[x], entries[sorted.last()]) {
        sorted.push(x)
    } else {
        insert_sorted(entries, sorted.drop_last(), x).push(sorted.last())
    }
}

/// The indices `idx` in tree order; equal entries keep their order (a stable
/// sort).
pub open spec fn sort_indices(entries: Seq<TreeEntry>, idx: Seq<int>) -> Seq<int>
    decreases idx.len(),
{
    if idx.len() == 0 {
        Seq::empty()
    } else {
        insert_sorted(entries, sort_indices(entries, idx.drop_last()), idx.last())
    }
}

/// The indices of the shown entries, in tree order.
pub open spec fn tree_order(
    entries: Seq<TreeEntry>,
    config: ConfigSpec,
    extra: Seq<Seq<char>>,
) -> Seq<int> {
    sort_indices(entries, shown_upto(entries, config, extra, entries.len() as int))
}

pub open spec fn connector(is_last: bool) -> Seq<char> {
    if is_last {
        "└── "@
    } else {
        "├── "@
    }
}

pub open spec fn indent(is_last: bool) -> Seq<char> {
    if is_last {
        "    "@
    } else {
        "│   "@
    }
}

/// The line of one entry: a directory name ends in `/`.
pub open spec fn entry_line(prefix: Seq<char>, is_last: bool, e: TreeEntry) -> Seq<char> {
    prefix + connector(is_last) + e.name@ + (if e.is_dir {
        seq!['/', '\n']
    } else {
        seq!['\n']
    })
}

/// The lines of the entries at positions `k..` of the order `ord`, each
/// directory followed by the lines of its own listing, one level deeper;
/// `fuel` bounds the depth.
pub open spec fn tree_lines(
    entries: Seq<TreeEntry>,
    ord: Seq<int>,
    k: int,
    prefix: Seq<char>,
    config: ConfigSpec,
    extra: Seq<Seq<char>>,
    fuel: nat,
) -> Seq<char>
    decreases fuel, ord.len() - k,
{
    if k < 0 || k >= ord.len() {
        Seq::empty()
    } else {
        let e = entries[ord[k]];
        let is_last = k == ord.len() - 1;
        let below = if e.is_dir && fuel > 0 {
            let kids = e.children@;
            tree_lines(
                kids,
                tree_order(kids, config, extra),
                0,
                prefix + indent(is_last),
                config,
                extra,
                (fuel - 1) as nat,
            )
        } else {
            Seq::empty()
        };
        entry_line(prefix, is_last, e) + below + tree_lines(
            entries,
            ord,
            k + 1,
            prefix,
            config,
            extra,
            fuel,
        )
    }
}

/// How deep the listing goes.
pub open spec fn depth(entries: Seq<TreeEntry>) -> nat
    decreases entries,
{
    if entries.len() == 0 {
        0
    } else {
        let a = depth(entries.drop_last());
        let b = 1 + depth(entries.last().children@);
        if a >= b {
            a
        } else {
            b
        }
    }
}

/// The tree text of a listing: each shown entry on its own line, in tree
/// order, behind `prefix` and a branch, directories followed by their own
/// listing.
pub open spec fn tree_text(
    entries: Seq<TreeEntry>,
    prefix: Seq<char>,
    config: ConfigSpec,
    extra: Seq<Seq<char>>,
) -> Seq<char> {
    tree_lines(entries, tree_order(entries, config, extra), 0, prefix, config, extra, depth(entries))
}

/// The path of the entry `name` inside the directory `base`, joined by `/`
/// as `Path::join` does for a plain name.
pub open spec fn join_path(base: Seq<char>, name: Seq<char>) -> Seq<char> {
    if base.len() > 0 && base.last() != '/' {
        base + seq!['/'] + name
    } else {
        base + name
    }
}

/// The order in which a level is visited: the tree order when `sorted`,
/// else the listing order of the shown entries.
pub open spec fn level_order(
    entries: Seq<TreeEntry>,
    config: ConfigSpec,
    extra: Seq<Seq<char>>,
    sorted: bool,
) -> Seq<int> {
    if sorted {
        tree_order(entries, config, extra)
    } else {
        shown_upto(entries, config, extra, entries.len() as int)
    }
}

/// The paths of the files among the entries at positions `k..` of `ord`,
/// each directory giving the files of its own listing (visited in the same
/// kind of order); `fuel` bounds the depth.
pub open spec fn files_at(
    entries: Seq<TreeEntry>,
    ord: Seq<int>,
    k: int,
    base: Seq<char>,
    config: ConfigSpec,
    extra: Seq<Seq<char>>,
    fuel: nat,
    sorted: bool,
) -> Seq<Seq<char>>
    decreases fuel, ord.len() - k,
{
    if k < 0 || k >= ord.len() {
        Seq::empty()
    } else {
        let e = entries[ord[k]];
        let here = if e.is_dir {
            if fuel > 0 {
                let kids = e.children@;
                files_at(
                    kids,
                    level_order(kids, config, extra, sorted),
                    0,
                    join_path(base, e.name@),
                    config,
                    extra,
                    (fuel - 1) as nat,
                    sorted,
                )
            } else {
                Seq::empty()
            }
        } else {
            seq![join_path(base, e.name@)]
        };
        here + files_at(entries, ord, k + 1, base, config, extra, fuel, sorted)
    }
}

/// The files that a run gathers from the listing of the directory `base`:
/// every shown file, in listing order, the shown directories walked in turn.
pub open spec fn gathered_paths(
    entries: Seq<TreeEntry>,
    base: Seq<char>,
    config: ConfigSpec,
    extra: Seq<Seq<char>>,
) -> Seq<Seq<char>> {
    files_at(entries, level_order(entries, config, extra, false), 0, base, config, extra, depth(entries), false)
}

/// The paths of the files that the tree of the listing shows, in the order
/// of its lines.
pub open spec fn tree_file_paths(
    entries: Seq<TreeEntry>,
    base: Seq<char>,
    config: ConfigSpec,
    extra: Seq<Seq<char>>,
) -> Seq<Seq<char>> {
    files_at(entries, level_order(entries, config, extra, true), 0, base, config, extra, depth(entries), true)
}

pub proof fn lemma_depth(entries: Seq<TreeEntry>, i: int)
    requires
        0 <= i < entries.len(),
    ensures
        1 + depth(entries[i].children@) <= depth(entries),
    decreases entries.len(),
{
    if i < entries.len() - 1 {
        lemma_depth(entries.drop_last(), i);
        assert(entries.drop_last()[i] == entries[i]);
    }
}

pub proof fn lemma_string_texts_contains(list: Seq<String>, s: Seq<char>)
    ensures
        string_texts(list).contains(s) <==> exists|i: int|
            0 <= i < list.len() && (#[trigger] list[i])@ == s,
{
    if string_texts(list).contains(s) {
        let k = choose|k: int| 0 <= k < string_texts(list).len() && string_texts(list)[k] == s;
        assert(list[k]@ == s);
    }
    if exists|i: int| 0 <= i < list.len() && (#[trigger] list[i])@ == s {
        let k = choose|k: int| 0 <= k < list.len() && (#[trigger] list[k])@ == s;
        assert(string_texts(list)[k] == s);
    }
}

/// Whether `a` comes before `b` character by character.
pub fn name_less(a: &str, b: &str) -> (r: bool)
    ensures
        r == text_less(a@, b@),
{
    let x = chars_of(a);
    let y = chars_of(b);
    chars_less(&x, &y)
}

/// Whether the characters `x` come before the characters `y`.
fn chars_less(x: &Vec<char>, y: &Vec<char>) -> (r: bool)
    ensures
        r == text_less(x@, y@),
{
    let mut i: usize = 0;
    proof {
        assert(x@.skip(0) =~= x@);
        assert(y@.skip(0) =~= y@);
    }
    while i < x.len() && i < y.len() && x[i] == y[i]
        invariant
            i <= x@.len(),
            i <= y@.len(),
            text_less(x@, y@) == text_less(x@.skip(i as int), y@.skip(i as int)),
        decreases x@.len() - i,
    {
        proof {
            assert(x@.skip(i as int).drop_first() =~= x@.skip(i + 1));
            assert(y@.skip(i as int).drop_first() =~= y@.skip(i + 1));
        }
        i = i + 1;
    }
    if i >= x.len() {
        i < y.len()
    } else if i >= y.len() {
        false
    } else {
        assert(x@.skip(i as int)[0] == x@[i as int]);
        assert(y@.skip(i as int)[0] == y@[i as int]);
        (x[i] as u32) < (y[i] as u32)
    }
}

/// The characters of each entry's name.
fn name_keys(entries: &Vec<TreeEntry>) -> (keys: Vec<Vec<char>>)
    ensures
        keys@.len() == entries@.len(),
        forall|i: int| 0 <= i < keys@.len() ==> (#[trigger] keys@[i])@ == entries@[i].name@,
{
    let mut keys: Vec<Vec<char>> = Vec::new();
    let mut i: usize = 0;
    while i < entries.len()
        invariant
            i <= entries@.len(),
            keys@.len() == i,
            forall|k: int| 0 <= k < i ==> (#[trigger] keys@[k])@ == entries@[k].name@,
        decreases entries@.len() - i,
    {
        keys.push(chars_of(entries[i].name.as_str()));
        i = i + 1;
    }
    keys
}

/// Whether entry `a` comes before entry `b` in the tree order.
fn entry_less_exec(entries: &Vec<TreeEntry>, keys: &Vec<Vec<char>>, a: usize, b: usize) -> (r: bool)
    requires
        a < entries@.len(),
        b < entries@.len(),
        keys@.len() == entries@.len(),
        forall|i: int| 0 <= i < keys@.len() ==> (#[trigger] keys@[i])@ == entries@[i].name@,
    ensures
        r == entry_less(entries@[a as int], entries@[b as int]),
{
    let da = entries[a].is_dir;
    let db = entries[b].is_dir;
    assert(keys@[a as int]@ == entries@[a as int].name@);
    assert(keys@[b as int]@ == entries@[b as int].name@);
    (da && !db) || (da == db && chars_less(&keys[a], &keys[b]))
}

/// Whether the tree shows the entry (see `shown`).
pub fn is_shown(e: &TreeEntry, config: &Config, extra_ignored: &Vec<String>) -> (r: bool)
    ensures
        r == shown(*e, config@, string_texts(extra_ignored@)),
{
    is_listed(e.name.as_str(), e.is_dir, config, extra_ignored)
}

pub open spec fn as_ints(s: Seq<usize>) -> Seq<int> {
    s.map_values(|i: usize| i as int)
}

proof fn lemma_as_ints_push(s: Seq<usize>, x: usize)
    ensures
        as_ints(s.push(x)) == as_ints(s).push(x as int),
{
    assert(as_ints(s.push(x)) =~= as_ints(s).push(x as int));
}

proof fn lemma_insert_sorted(entries: Seq<TreeEntry>, s: Seq<int>, x: int, j: int)
    requires
        0 <= j <= s.len(),
        forall|t: int| j <= t < s.len() ==> entry_less(entries[x], entries[#[trigger] s[t]]),
        j == 0 || !entry_less(entries[x], entries[s[j - 1]]),
    ensures
        insert_sorted(entries, s, x) == s.insert(j, x),
    decreases s.len() - j,
{
    if j == s.len() {
        assert(s.insert(j, x) =~= s.push(x));
    } else {
        let t = s.drop_last();
        assert forall|u: int| j <= u < t.len() implies entry_less(
            entries[x],
            entries[#[trigger] t[u]],
        ) by {
            assert(t[u] == s[u]);
        }
        assert(entry_less(entries[x], entries[s[s.len() - 1]]));
        if j > 0 {
            assert(t[j - 1] == s[j - 1]);
        }
        lemma_insert_sorted(entries, t, x, j);
        assert(t.insert(j, x).push(s.last()) =~= s.insert(j, x));
    }
}

/// The indices of the entries that the tree shows, in listing order.
fn shown_indices(entries: &Vec<TreeEntry>, config: &Config, extra_ignored: &Vec<String>) -> (r: Vec<usize>)
    ensures
        as_ints(r@) == shown_upto(entries@, config@, string_texts(extra_ignored@), entries@.len() as int),
        forall|k: int| 0 <= k < r@.len() ==> (#[trigger] r@[k]) < entries@.len(),
{
    let mut r: Vec<usize> = Vec::new();
    let mut i: usize = 0;
    proof {
        assert(as_ints(r@) =~= Seq::<int>::empty());
    }
    while i < entries.len()
        invariant
            i <= entries@.len(),
            as_ints(r@) == shown_upto(entries@, config@, string_texts(extra_ignored@), i as int),
            forall|k: int| 0 <= k < r@.len() ==> (#[trigger] r@[k]) < entries@.len(),
        decreases entries@.len() - i,
    {
        if is_shown(&entries[i], config, extra_ignored) {
            proof {
                lemma_as_ints_push(r@, i);
            }
            r.push(i);
        }
        i = i + 1;
    }
    r
}

/// The indices of the shown entries in tree order (see `tree_order`).
pub fn tree_order_exec(entries: &Vec<TreeEntry>, config: &Config, extra_ignored: &Vec<String>) -> (r: Vec<usize>)
    ensures
        as_ints(r@) == tree_order(entries@, config@, string_texts(extra_ignored@)),
        forall|k: int| 0 <= k < r@.len() ==> (#[trigger] r@[k]) < entries@.len(),
{
    let shown = shown_indices(entries, config, extra_ignored);
    let keys = name_keys(entries);
    let ghost all = as_ints(shown@);
    let mut ord: Vec<usize> = Vec::new();
    let mut i: usize = 0;
    proof {
        assert(all.take(0) =~= Seq::<int>::empty());
        assert(as_ints(ord@) =~= Seq::<int>::empty());
    }
    while i < shown.len()
        invariant
            i <= shown@.len(),
            all == as_ints(shown@),
            forall|k: int| 0 <= k < shown@.len() ==> (#[trigger] shown@[k]) < entries@.len(),
            forall|k: int| 0 <= k < ord@.len() ==> (#[trigger] ord@[k]) < entries@.len(),
            as_ints(ord@) == sort_indices(entries@, all.take(i as int)),
            ord@.len() == i,
            keys@.len() == entries@.len(),
            forall|k: int| 0 <= k < keys@.len() ==> (#[trigger] keys@[k])@ == entries@[k].name@,
        decreases shown@.len() - i,
    {
        let x = shown[i];
        let mut j: usize = ord.len();
        while j > 0 && entry_less_exec(entries, &keys, x, ord[j - 1])
            invariant
                j <= ord@.len(),
                keys@.len() == entries@.len(),
                forall|k: int| 0 <= k < keys@.len() ==> (#[trigger] keys@[k])@ == entries@[k].name@,
                x < entries@.len(),
                forall|k: int| 0 <= k < ord@.len() ==> (#[trigger] ord@[k]) < entries@.len(),
                forall|t: int|
                    j <= t < ord@.len() ==> entry_less(
                        entries@[x as int],
                        entries@[#[trigger] as_ints(ord@)[t]],
                    ),
            decreases j,
        {
            j = j - 1;
        }
        proof {
            let s = as_ints(ord@);
            lemma_insert_sorted(entries@, s, x as int, j as int);
            assert(all.take(i + 1).drop_last() =~= all.take(i as int));
            assert(all.take(i + 1).last() == x as int);
            assert(as_ints(ord@.insert(j as int, x)) =~= s.insert(j as int, x as int));
        }
        ord.insert(j, x);
        i = i + 1;
    }
    proof {
        assert(all.take(shown@.len() as int) =~= all);
    }
    ord
}

/// Appends the tree lines of `entries` behind `prefix` to `out`.
fn render_into(
    out: &mut String,
    entries: &Vec<TreeEntry>,
    prefix: &str,
    config: &Config,
    extra_ignored: &Vec<String>,
    Ghost(fuel): Ghost<nat>,
)
    requires
        fuel >= depth(entries@),
    ensures
        final(out)@ == old(out)@ + tree_lines(
            entries@,
            tree_order(entries@, config@, string_texts(extra_ignored@)),
            0,
            prefix@,
            config@,
            string_texts(extra_ignored@),
            fuel,
        ),
    decreases fuel,
{
    let ghost ex = string_texts(extra_ignored@);
    let ord = tree_order_exec(entries, config, extra_ignored);
    let ghost o = as_ints(ord@);
    let n = ord.len();
    let mut k: usize = 0;
    proof {
        assert(old(out)@ + Seq::<char>::empty() =~= old(out)@);
    }
    while k < n
        invariant
            n == ord@.len(),
            o == as_ints(ord@),
            o == tree_order(entries@, config@, ex),
            ex == string_texts(extra_ignored@),
            fuel >= depth(entries@),
            k <= n,
            forall|t: int| 0 <= t < ord@.len() ==> (#[trigger] ord@[t]) < entries@.len(),
            old(out)@ + tree_lines(entries@, o, 0, prefix@, config@, ex, fuel) == out@
                + tree_lines(entries@, o, k as int, prefix@, config@, ex, fuel),
        decreases n - k,
    {
        let ghost before = out@;
        let idx = ord[k];
        let e = &entries[idx];
        let is_last = k == n - 1;
        push_str(out, prefix);
        if is_last {
            push_str(out, "└── ");
        } else {
            push_str(out, "├── ");
        }
        push_str(out, e.name.as_str());
        if e.is_dir {
            push_char(out, '/');
        }
        push_char(out, '\n');
        proof {
            assert(o[k as int] == idx as int);
            assert(out@ =~= before + entry_line(prefix@, is_last, *e));
        }
        let ghost mid = out@;
        if e.is_dir {
            proof {
                lemma_depth(entries@, idx as int);
            }
            let mut child_prefix = String::new();
            push_str(&mut child_prefix, prefix);
            if is_last {
                push_str(&mut child_prefix, "    ");
            } else {
                push_str(&mut child_prefix, "│   ");
            }
            proof {
                assert(child_prefix@ =~= prefix@ + indent(is_last));
            }
            render_into(
                out,
                &e.children,
                child_prefix.as_str(),
                config,
                extra_ignored,
                Ghost((fuel - 1) as nat),
            );
        }
        proof {
            let below = if e.is_dir && fuel > 0 {
                tree_lines(
                    e.children@,
                    tree_order(e.children@, config@, ex),
                    0,
                    prefix@ + indent(is_last),
                    config@,
                    ex,
                    (fuel - 1) as nat,
                )
            } else {
                Seq::<char>::empty()
            };
            assert(out@ =~= mid + below);
            assert(tree_lines(entries@, o, k as int, prefix@, config@, ex, fuel) == entry_line(
                prefix@,
                is_last,
                *e,
            ) + below + tree_lines(entries@, o, k + 1, prefix@, config@, ex, fuel));
        }
        k = k + 1;
    }
    proof {
        assert(out@ + Seq::<char>::empty() =~= out@);
    }
}

/// The tree text of a directory listing (see `tree_text`): one line per
/// shown entry, directories first and then by name, each directory followed
/// by its own listing one level deeper.
pub fn generate_tree(
    entries: &Vec<TreeEntry>,
    prefix: &str,
    config: &Config,
    extra_ignored: &Vec<String>,
) -> (r: String)
    ensures
        r@ == tree_text(entries@, prefix@, config@, string_texts(extra_ignored@)),
{
    let mut out = String::new();
    render_into(&mut out, entries, prefix, config, extra_ignored, Ghost(depth(entries@)));
    assert(out@ =~= tree_text(entries@, prefix@, config@, string_texts(extra_ignored@)));
    out
}

/// The path of the entry `name` inside the directory `base` (see `join_path`).
pub fn join_path_exec(base: &str, name: &str) -> (r: String)
    ensures
        r@ == join_path(base@, name@),
{
    let v = chars_of(base);
    let mut out = String::new();
    push_str(&mut out, base);
    if v.len() > 0 && v[v.len() - 1] != '/' {
        push_char(&mut out, '/');
    }
    push_str(&mut out, name);
    assert(out@ =~= join_path(base@, name@));
    out
}

/// Appends the paths of the shown files of `entries` under `base`, in
/// listing order, to `out`.
fn gather_into(
    out: &mut Vec<String>,
    entries: &Vec<TreeEntry>,
    base: &str,
    config: &Config,
    extra_ignored: &Vec<String>,
    Ghost(fuel): Ghost<nat>,
)
    requires
        fuel >= depth(entries@),
    ensures
        string_texts(final(out)@) == string_texts(old(out)@) + files_at(
            entries@,
            level_order(entries@, config@, string_texts(extra_ignored@), false),
            0,
            base@,
            config@,
            string_texts(extra_ignored@),
            fuel,
            false,
        ),
    decreases fuel,
{
    let ghost ex = string_texts(extra_ignored@);
    let ord = shown_indices(entries, config, extra_ignored);
    let ghost o = as_ints(ord@);
    let n = ord.len();
    let mut k: usize = 0;
    proof {
        assert(string_texts(old(out)@) + Seq::<Seq<char>>::empty() =~= string_texts(old(out)@));
    }
    while k < n
        invariant
            n == ord@.len(),
            o == as_ints(ord@),
            o == level_order(entries@, config@, ex, false),
            ex == string_texts(extra_ignored@),
            fuel >= depth(entries@),
            k <= n,
            forall|t: int| 0 <= t < ord@.len() ==> (#[trigger] ord@[t]) < entries@.len(),
            string_texts(old(out)@) + files_at(entries@, o, 0, base@, config@, ex, fuel, false)
                == string_texts(out@) + files_at(entries@, o, k as int, base@, config@, ex, fuel, false),
        decreases n - k,
    {
        let ghost before = string_texts(out@);
        let idx = ord[k];
        let e = &entries[idx];
        proof {
            assert(o[k as int] == idx as int);
        }
        let path = join_path_exec(base, e.name.as_str());
        if e.is_dir {
            proof {
                lemma_depth(entries@, idx as int);
            }
            gather_into(out, &e.children, path.as_str(), config, extra_ignored, Ghost((fuel - 1) as nat));
        } else {
            proof {
                assert(string_texts(out@.push(path)) =~= string_texts(out@).push(path@));
            }
            out.push(path);
        }
        proof {
            let here = if e.is_dir {
                if fuel > 0 {
                    files_at(
                        e.children@,
                        level_order(e.children@, config@, ex, false),
                        0,
                        join_path(base@, e.name@),
                        config@,
                        ex,
                        (fuel - 1) as nat,
                        false,
                    )
                } else {
                    Seq::<Seq<char>>::empty()
                }
            } else {
                seq![join_path(base@, e.name@)]
            };
            assert(string_texts(out@) =~= before + here);
            assert(files_at(entries@, o, k as int, base@, config@, ex, fuel, false) == here
                + files_at(entries@, o, k + 1, base@, config@, ex, fuel, false));
            assert(before + files_at(entries@, o, k as int, base@, config@, ex, fuel, false)
                =~= string_texts(out@) + files_at(entries@, o, k + 1, base@, config@, ex, fuel, false));
        }
        k = k + 1;
    }
    proof {
        assert(string_texts(out@) + Seq::<Seq<char>>::empty() =~= string_texts(out@));
    }
}

/// The paths of the files that a run gathers from the listing of `base`
/// (see `gathered_paths`): each shown file, in listing order, directories
/// walked as they come.
pub fn gathered_files(
    entries: &Vec<TreeEntry>,
    base: &str,
    config: &Config,
    extra_ignored: &Vec<String>,
) -> (r: Vec<String>)
    ensures
        string_texts(r@) == gathered_paths(entries@, base@, config@, string_texts(extra_ignored@)),
{
    let mut out: Vec<String> = Vec::new();
    gather_into(&mut out, entries, base, config, extra_ignored, Ghost(depth(entries@)));
    assert(string_texts(out@) =~= gathered_paths(entries@, base@, config@, string_texts(extra_ignored@)));
    out
}

} // verus!
