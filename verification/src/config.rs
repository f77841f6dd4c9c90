use vstd::prelude::*;
use crate::lang::{find_lang, find_lang_spec, texts, LangSpec};
use crate::path::{extension, extension_spec, file_name, file_name_spec};
use crate::text::{
    chars_of, contains_str, decimal, digit, push_char, push_decimal, split_on, split_ranges,
    str_equal, string_of_range, trim, trim_indices,
};

verus! {

/// What to gather from a project: the source extensions of the chosen
/// languages and the directories to leave out, each listed once, in the order
/// in which the languages name them.
pub struct Config {
    pub extensions: Vec<&'static str>,
    pub ignored_dirs: Vec<&'static str>,
}

/// A configuration as plain text.
#[verifier::ext_equal]
pub struct ConfigSpec {
    pub extensions: Seq<Seq<char>>,
    pub ignored_dirs: Seq<Seq<char>>,
}

impl ConfigSpec {
    /// Each extension and each ignored directory is listed once.
    pub open spec fn well_formed(self) -> bool {
        self.extensions.no_duplicates() && self.ignored_dirs.no_duplicates()
    }
}

impl View for Config {
    type V = ConfigSpec;

    open spec fn view(&self) -> ConfigSpec {
        ConfigSpec { extensions: texts(self.extensions@), ignored_dirs: texts(self.ignored_dirs@) }
    }
}

/// `acc` followed by those of `items` it does not hold yet, in order, each once.
pub open spec fn merge(acc: Seq<Seq<char>>, items: Seq<Seq<char>>) -> Seq<Seq<char>>
    decreases items.len(),
{
    if items.len() == 0 {
        acc
    } else {
        let m = merge(acc, items.drop_last());
        if m.contains(items.last()) {
            m
        } else {
            m.push(items.last())
        }
    }
}

/// The configuration `c` extended by the language `l`.
pub open spec fn add_lang(c: ConfigSpec, l: LangSpec) -> ConfigSpec {
    ConfigSpec {
        extensions: merge(c.extensions, l.extensions),
        ignored_dirs: merge(c.ignored_dirs, l.ignored_dirs),
    }
}

pub open spec fn empty_config() -> ConfigSpec {
    ConfigSpec { extensions: Seq::empty(), ignored_dirs: Seq::empty() }
}

/// The configuration for the language names `parts` (white space around each
/// name does not count), or the first name that no language has.
pub open spec fn config_from_parts(parts: Seq<Seq<char>>) -> Result<ConfigSpec, Seq<char>>
    decreases parts.len(),
{
    if parts.len() == 0 {
        Ok(empty_config())
    } else {
        match config_from_parts(parts.drop_last()) {
            Err(e) => Err(e),
            Ok(c) => match find_lang_spec(trim(parts.last())) {
                None => Err(trim(parts.last())),
                Some(l) => Ok(add_lang(c, l)),
            },
        }
    }
}

/// The configuration for a comma-separated list of language names.
pub open spec fn config_from_ext(s: Seq<char>) -> Result<ConfigSpec, Seq<char>> {
    config_from_parts(split_on(s, ','))
}

proof fn lemma_texts_push(list: Seq<&str>, s: &str)
    ensures
        texts(list.push(s)) == texts(list).push(s@),
{
    assert(texts(list.push(s)) =~= texts(list).push(s@));
}

/// Appends to `acc` the strings of `items` that it does not hold yet.
fn merge_into(acc: &mut Vec<&'static str>, items: &'static [&'static str])
    ensures
        texts(final(acc)@) == merge(texts(old(acc)@), texts(items@)),
{
    let mut i: usize = 0;
    proof {
        assert(texts(items@).take(0) =~= Seq::<Seq<char>>::empty());
    }
    while i < items.len()
        invariant
            0 <= i <= items@.len(),
            texts(acc@) == merge(texts(old(acc)@), texts(items@).take(i as int)),
        decreases items@.len() - i,
    {
        let ghost before = texts(acc@);
        let item = items[i];
        proof {
            assert(texts(items@).take(i + 1).drop_last() =~= texts(items@).take(i as int));
            assert(texts(items@).take(i + 1).last() == item@);
        }
        if !contains_str(acc.as_slice(), item) {
            proof {
                lemma_texts_push(acc@, item);
                assert(!before.contains(item@)) by {
                    if before.contains(item@) {
                        let k = choose|k: int| 0 <= k < before.len() && before[k] == item@;
                        assert(acc@[k]@ == item@);
                    }
                }
            }
            acc.push(item);
        } else {
            proof {
                let k = choose|k: int| 0 <= k < acc@.len() && (#[trigger] acc@[k])@ == item@;
                assert(before[k] == item@);
            }
        }
        i = i + 1;
    }
    proof {
        assert(texts(items@).take(items@.len() as int) =~= texts(items@));
    }
}

proof fn lemma_error_stays(parts: Seq<Seq<char>>, k: int, n: int)
    requires
        0 <= k <= n <= parts.len(),
        config_from_parts(parts.take(k)) is Err,
    ensures
        config_from_parts(parts.take(n)) == config_from_parts(parts.take(k)),
    decreases n - k,
{
    if n > k {
        lemma_error_stays(parts, k, n - 1);
        assert(parts.take(n).drop_last() =~= parts.take(n - 1));
    }
}

impl Config {
    /// The configuration for a comma-separated list of language names such as
    /// `"rs,ts"`. White space around a name does not count. The first name
    /// that is no supported language is the error.
    pub fn from_ext_str(ext_str: &str) -> (r: Result<Config, String>)
        ensures
            match r {
                Ok(c) => config_from_ext(ext_str@) == Ok::<ConfigSpec, Seq<char>>(c@)
                    && c@.well_formed(),
                Err(e) => config_from_ext(ext_str@) == Err::<ConfigSpec, Seq<char>>(e@),
            },
    {
        let v = chars_of(ext_str);
        let parts = split_ranges(&v, ',');
        let ghost all = split_on(v@, ',');
        let mut cfg = Config { extensions: Vec::new(), ignored_dirs: Vec::new() };
        let mut i: usize = 0;
        proof {
            assert(all.take(0) =~= Seq::<Seq<char>>::empty());
            assert(cfg@ =~~= empty_config());
        }
        while i < parts.len()
            invariant
                0 <= i <= parts@.len(),
                parts@.len() == all.len(),
                all == split_on(v@, ','),
                v@ == ext_str@,
                forall|k: int|
                    0 <= k < parts@.len() ==> {
                        &&& (#[trigger] parts@[k]).0 <= parts@[k].1 <= v@.len()
                        &&& v@.subrange(parts@[k].0 as int, parts@[k].1 as int) == all[k]
                    },
                config_from_parts(all.take(i as int)) == Ok::<ConfigSpec, Seq<char>>(cfg@),
            decreases parts@.len() - i,
        {
            let (lo, hi) = parts[i];
            let (a, b) = trim_indices(&v, lo, hi);
            let name = string_of_range(&v, a, b);
            proof {
                assert(all.take(i + 1).drop_last() =~= all.take(i as int));
                assert(all.take(i + 1).last() == all[i as int]);
                assert(name@ == trim(all[i as int]));
            }
            match find_lang(name.as_str()) {
                None => {
                    proof {
                        lemma_error_stays(all, i + 1, all.len() as int);
                        assert(all.take(all.len() as int) =~= all);
                    }
                    return Err(name);
                },
                Some(l) => {
                    merge_into(&mut cfg.extensions, l.extensions);
                    merge_into(&mut cfg.ignored_dirs, l.ignored_dirs);
                    proof {
                        assert(cfg@ =~~= add_lang(
                            config_from_parts(all.take(i as int))->Ok_0,
                            l@,
                        ));
                    }
                },
            }
            i = i + 1;
        }
        proof {
            assert(all.take(all.len() as int) =~= all);
            crate::laws::law_config_lists_each_once(all);
        }
        Ok(cfg)
    }
}

// ----------------------------------------------------------------------------
// Files that are always gathered
// ----------------------------------------------------------------------------

/// File names gathered whatever the languages.
pub open spec fn universal_file_names() -> Seq<Seq<char>> {
    seq!["Dockerfile"@, "docker-compose.yml"@, "docker-compose.yaml"@, "Makefile"@]
}

/// Extensions gathered whatever the languages.
pub open spec fn universal_extension_names() -> Seq<Seq<char>> {
    seq!["yaml"@, "yml"@, "md"@, "toml"@]
}

impl Config {
    /// File names gathered whatever the languages.
    pub fn universal_files() -> (r: &'static [&'static str])
        ensures
            texts(r@) == universal_file_names(),
    {
        let r: &'static [&'static str] = &[
            "Dockerfile",
            "docker-compose.yml",
            "docker-compose.yaml",
            "Makefile",
        ];
        assert(texts(r@) =~= universal_file_names());
        r
    }

    /// Extensions gathered whatever the languages.
    pub fn universal_extensions() -> (r: &'static [&'static str])
        ensures
            texts(r@) == universal_extension_names(),
    {
        let r: &'static [&'static str] = &["yaml", "yml", "md", "toml"];
        assert(texts(r@) =~= universal_extension_names());
        r
    }
}

/// An absent file name or extension counts as the empty string.
pub open spec fn or_empty(o: Option<Seq<char>>) -> Seq<char> {
    match o {
        Some(s) => s,
        None => Seq::empty(),
    }
}

/// Whether the file at `path` is gathered under `config`: it is one of the
/// universal files, or its extension is one of the configured or universal
/// extensions.
pub open spec fn included(path: Seq<char>, config: ConfigSpec) -> bool {
    let name = or_empty(file_name_spec(path));
    let ext = or_empty(extension_spec(path));
    ||| universal_file_names().contains(name)
    ||| config.extensions.contains(ext)
    ||| universal_extension_names().contains(ext)
}

pub proof fn lemma_texts_contains(list: Seq<&str>, s: Seq<char>)
    ensures
        texts(list).contains(s) <==> exists|i: int| 0 <= i < list.len() && (#[trigger] list[i])@ == s,
{
    if texts(list).contains(s) {
        let k = choose|k: int| 0 <= k < texts(list).len() && texts(list)[k] == s;
        assert(list[k]@ == s);
    }
    if exists|i: int| 0 <= i < list.len() && (#[trigger] list[i])@ == s {
        let k = choose|k: int| 0 <= k < list.len() && (#[trigger] list[k])@ == s;
        assert(texts(list)[k] == s);
    }
}

fn string_or_empty(o: Option<String>) -> (r: String)
    ensures
        r@ == match o {
            Some(s) => s@,
            None => Seq::<char>::empty(),
        },
{
    match o {
        Some(s) => s,
        None => String::new(),
    }
}

/// Whether the file at `path` is gathered under `config` (see `included`).
pub fn is_included_file(path: &str, config: &Config) -> (r: bool)
    ensures
        r == included(path@, config@),
{
    let name = string_or_empty(file_name(path));
    let ext = string_or_empty(extension(path));
    let files = Config::universal_files();
    let exts = Config::universal_extensions();
    let a = contains_str(files, name.as_str());
    let b = contains_str(config.extensions.as_slice(), ext.as_str());
    let c = contains_str(exts, ext.as_str());
    proof {
        lemma_texts_contains(files@, name@);
        lemma_texts_contains(config.extensions@, ext@);
        lemma_texts_contains(exts@, ext@);
    }
    a || b || c
}

/// The language name that a Markdown code fence gets for the extension `ext`.
pub open spec fn hint_for(ext: Seq<char>) -> Seq<char> {
    if ext == "rs"@ {
        "rust"@
    } else if ext == "py"@ {
        "python"@
    } else if ext == "js"@ || ext == "jsx"@ {
        "javascript"@
    } else if ext == "ts"@ || ext == "tsx"@ {
        "typescript"@
    } else if ext == "go"@ {
        "go"@
    } else if ext == "java"@ {
        "java"@
    } else if ext == "c"@ || ext == "h"@ {
        "c"@
    } else if ext == "cpp"@ || ext == "cc"@ || ext == "cxx"@ || ext == "hpp"@ {
        "cpp"@
    } else if ext == "toml"@ {
        "toml"@
    } else if ext == "yaml"@ || ext == "yml"@ {
        "yaml"@
    } else if ext == "md"@ {
        "markdown"@
    } else {
        ""@
    }
}

/// The code-fence language for the file at `path`, from its extension.
pub fn lang_hint(path: &str) -> (r: &'static str)
    ensures
        r@ == hint_for(or_empty(extension_spec(path@))),
{
    let ext = string_or_empty(extension(path));
    let e = ext.as_str();
    if str_equal(e, "rs") {
        "rust"
    } else if str_equal(e, "py") {
        "python"
    } else if str_equal(e, "js") || str_equal(e, "jsx") {
        "javascript"
    } else if str_equal(e, "ts") || str_equal(e, "tsx") {
        "typescript"
    } else if str_equal(e, "go") {
        "go"
    } else if str_equal(e, "java") {
        "java"
    } else if str_equal(e, "c") || str_equal(e, "h") {
        "c"
    } else if str_equal(e, "cpp") || str_equal(e, "cc") || str_equal(e, "cxx") || str_equal(
        e,
        "hpp",
    ) {
        "cpp"
    } else if str_equal(e, "toml") {
        "toml"
    } else if str_equal(e, "yaml") || str_equal(e, "yml") {
        "yaml"
    } else if str_equal(e, "md") {
        "markdown"
    } else {
        ""
    }
}

// ----------------------------------------------------------------------------
// Sizes
// ----------------------------------------------------------------------------

/// `num / den` rounded to the nearest integer, halves to the even one.
pub open spec fn round_half_even(num: nat, den: nat) -> nat {
    let q = num / den;
    let r = num % den;
    if 2 * r > den || (2 * r == den && q % 2 == 1) {
        q + 1
    } else {
        q
    }
}

pub open spec fn two_to(e: nat) -> nat
    decreases e,
{
    if e == 0 {
        1
    } else {
        2 * two_to((e - 1) as nat)
    }
}

/// How many halvings bring `n` under 2^53, the precision of a double.
pub open spec fn halvings(n: nat) -> nat
    decreases n,
{
    if n < 0x20_0000_0000_0000 {
        0
    } else {
        1 + halvings(n / 2)
    }
}

/// The value of `n` converted to a double (`n as f64`): rounded to 53
/// significant bits, halves to even.
pub open spec fn as_double(n: nat) -> nat {
    let p = two_to(halvings(n));
    round_half_even(n, p) * p
}

/// Tenths `t` written with one decimal: `12` is `1.2`.
pub open spec fn tenths(t: nat) -> Seq<char> {
    decimal(t / 10) + seq!['.', digit(t % 10)]
}

/// A byte count for people to read: bytes below 1 KiB, then KiB or MiB with
/// one decimal, as `{:.1}` prints the quotient of doubles (halves to even).
pub open spec fn size_text(bytes: nat) -> Seq<char> {
    if bytes < 1024 {
        decimal(bytes) + seq![' ', 'B']
    } else if bytes < 1024 * 1024 {
        tenths(round_half_even(bytes * 10, 1024)) + seq![' ', 'K', 'B']
    } else {
        tenths(round_half_even(as_double(bytes) * 10, 1024 * 1024)) + seq![' ', 'M', 'B']
    }
}

fn round_half_even_exec(num: u128, den: u128) -> (r: u128)
    requires
        den > 0,
        num / den < u128::MAX,
    ensures
        r == round_half_even(num as nat, den as nat),
{
    let q = num / den;
    let r = num % den;
    if (r > den - r) || (r == den - r && q % 2 == 1) {
        q + 1
    } else {
        q
    }
}

/// Appends `t` tenths with one decimal to `out`.
fn push_tenths(out: &mut String, t: u64)
    ensures
        final(out)@ == old(out)@ + tenths(t as nat),
{
    push_decimal(out, t / 10);
    push_char(out, '.');
    let d = t % 10;
    let c = match d {
        0 => '0',
        1 => '1',
        2 => '2',
        3 => '3',
        4 => '4',
        5 => '5',
        6 => '6',
        7 => '7',
        8 => '8',
        _ => '9',
    };
    push_char(out, c);
    assert(out@ =~= old(out)@ + tenths(t as nat));
}

/// The value of `n` as a double, with the proof that it stays below 2^65.
fn as_double_exec(n: u64) -> (r: u128)
    ensures
        r == as_double(n as nat),
        r <= 0x2_0000_0000_0000_0000,
{
    let mut m: u64 = n;
    let mut p: u64 = 1;
    let ghost mut e: nat = 0;
    while m >= 0x20_0000_0000_0000
        invariant
            halvings(n as nat) == e + halvings(m as nat),
            p == two_to(e),
            p * m <= n,
            1 <= p <= 4096,
        decreases m,
    {
        assert(p < 2048) by (nonlinear_arith)
            requires
                p * m <= n,
                m >= 0x20_0000_0000_0000,
                n <= 0xffff_ffff_ffff_ffff,
                p >= 1,
        ;
        assert((2 * p) * (m / 2) <= p * m) by (nonlinear_arith)
            requires
                p >= 1,
        ;
        m = m / 2;
        p = 2 * p;
        proof {
            e = e + 1;
        }
    }
    let nn: u128 = n as u128;
    let pp: u128 = p as u128;
    let k = round_half_even_exec(nn, pp);
    assert(k * pp <= nn + pp) by (nonlinear_arith)
        requires
            pp >= 1,
            k <= nn / pp + 1,
    ;
    k * pp
}

/// A byte count for people to read (see `size_text`).
pub fn format_size(bytes: u64) -> (r: String)
    ensures
        r@ == size_text(bytes as nat),
{
    let mut out = String::new();
    if bytes < 1024 {
        push_decimal(&mut out, bytes);
        push_char(&mut out, ' ');
        push_char(&mut out, 'B');
    } else if bytes < 1024 * 1024 {
        let t = round_half_even_exec(bytes as u128 * 10, 1024);
        push_tenths(&mut out, t as u64);
        push_char(&mut out, ' ');
        push_char(&mut out, 'K');
        push_char(&mut out, 'B');
    } else {
        let d = as_double_exec(bytes);
        let t = round_half_even_exec(d * 10, 1024 * 1024);
        assert(t <= 0x10_0000_0000_0000);
        push_tenths(&mut out, t as u64);
        push_char(&mut out, ' ');
        push_char(&mut out, 'M');
        push_char(&mut out, 'B');
    }
    assert(out@ =~= size_text(bytes as nat));
    out
}

} // verus!
