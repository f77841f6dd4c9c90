use vstd::prelude::*;
use crate::text::{chars_of, contains_string, str_equal, string_of_range};
use crate::tree::{lemma_string_texts_contains, string_texts};

verus! {

/// What the command line asks for.
pub enum Command {
    /// `-h` or `--help` anywhere.
    Help,
    /// `-v` or `--version` anywhere.
    Version,
    /// `diff <commit>|--staged [dir...]`.
    Diff { commit: Option<String>, dirs: Vec<String>, clipboard: bool },
    /// `diff` with neither `--staged` nor a commit after it.
    MissingCommit,
    /// `list [dir]`.
    List { dir: String },
    /// `update [dir]`.
    Update { dir: String },
    /// `init [--recursive|-r] [dir]`.
    Init { recursive: bool, dir: String },
    /// `run [dir...]`.
    Run { dirs: Vec<String>, clipboard: bool },
    /// Any other command word (empty when there is none).
    Unknown { command: String },
}

/// A command as plain text.
pub enum CommandSpec {
    Help,
    Version,
    Diff { commit: Option<Seq<char>>, dirs: Seq<Seq<char>>, clipboard: bool },
    MissingCommit,
    List { dir: Seq<char> },
    Update { dir: Seq<char> },
    Init { recursive: bool, dir: Seq<char> },
    Run { dirs: Seq<Seq<char>>, clipboard: bool },
    Unknown { command: Seq<char> },
}

impl View for Command {
    type V = CommandSpec;

    open spec fn view(&self) -> CommandSpec {
        match self {
            Command::Help => CommandSpec::Help,
            Command::Version => CommandSpec::Version,
            Command::Diff { commit, dirs, clipboard } => CommandSpec::Diff {
                commit: match commit {
                    Some(c) => Some(c@),
                    None => None,
                },
                dirs: string_texts(dirs@),
                clipboard: *clipboard,
            },
            Command::MissingCommit => CommandSpec::MissingCommit,
            Command::List { dir } => CommandSpec::List { dir: dir@ },
            Command::Update { dir } => CommandSpec::Update { dir: dir@ },
            Command::Init { recursive, dir } => CommandSpec::Init { recursive: *recursive, dir: dir@ },
            Command::Run { dirs, clipboard } => CommandSpec::Run {
                dirs: string_texts(dirs@),
                clipboard: *clipboard,
            },
            Command::Unknown { command } => CommandSpec::Unknown { command: command@ },
        }
    }
}

/// `s` without the `/` at its end (`trim_end_matches('/')`).
pub open spec fn trim_slashes(s: Seq<char>) -> Seq<char>
    decreases s.len(),
{
    if s.len() > 0 && s.last() == '/' {
        trim_slashes(s.drop_last())
    } else {
        s
    }
}

/// The directory arguments among `args`: those that are not in `flags`,
/// without trailing `/`.
pub open spec fn dir_words(args: Seq<Seq<char>>, flags: Seq<Seq<char>>) -> Seq<Seq<char>>
    decreases args.len(),
{
    if args.len() == 0 {
        Seq::empty()
    } else {
        let rest = dir_words(args.drop_last(), flags);
        if flags.contains(args.last()) {
            rest
        } else {
            rest.push(trim_slashes(args.last()))
        }
    }
}

/// The directories named after position `skip`, or `.` when there are none.
pub open spec fn dirs_after(args: Seq<Seq<char>>, skip: int, flags: Seq<Seq<char>>) -> Seq<
    Seq<char>,
> {
    let d = dir_words(if skip <= args.len() {
        args.skip(skip)
    } else {
        Seq::empty()
    }, flags);
    if d.len() == 0 {
        seq!["."@]
    } else {
        d
    }
}

/// The first of `args` that is not in `flags`.
pub open spec fn first_other(args: Seq<Seq<char>>, flags: Seq<Seq<char>>) -> Option<Seq<char>>
    decreases args.len(),
{
    if args.len() == 0 {
        None
    } else if flags.contains(args[0]) {
        first_other(args.drop_first(), flags)
    } else {
        Some(args[0])
    }
}

pub open spec fn word_at_or_dot(args: Seq<Seq<char>>, i: int) -> Seq<char> {
    if i < args.len() {
        args[i]
    } else {
        "."@
    }
}

pub open spec fn clipboard_flags() -> Seq<Seq<char>> {
    seq!["--clipboard"@, "-c"@]
}

pub open spec fn diff_flags() -> Seq<Seq<char>> {
    seq!["--clipboard"@, "-c"@, "--staged"@]
}

pub open spec fn init_flags() -> Seq<Seq<char>> {
    seq!["--recursive"@, "-r"@]
}

/// The command that the arguments `args` ask for; `args[0]` is the program.
pub open spec fn command_of(args: Seq<Seq<char>>) -> CommandSpec {
    let word = if args.len() > 1 {
        args[1]
    } else {
        Seq::empty()
    };
    let has_word = args.len() > 1;
    if args.contains("-h"@) || args.contains("--help"@) {
        CommandSpec::Help
    } else if args.contains("-v"@) || args.contains("--version"@) {
        CommandSpec::Version
    } else if has_word && word == "diff"@ {
        let clipboard = args.contains("--clipboard"@) || args.contains("-c"@);
        if args.contains("--staged"@) {
            CommandSpec::Diff { commit: None, dirs: dirs_after(args, 2, diff_flags()), clipboard }
        } else if args.len() > 2 && !(args[2].len() > 0 && args[2][0] == '-') {
            CommandSpec::Diff {
                commit: Some(args[2]),
                dirs: dirs_after(args, 3, diff_flags()),
                clipboard,
            }
        } else {
            CommandSpec::MissingCommit
        }
    } else if has_word && word == "list"@ {
        CommandSpec::List { dir: word_at_or_dot(args, 2) }
    } else if has_word && word == "update"@ {
        CommandSpec::Update { dir: word_at_or_dot(args, 2) }
    } else if has_word && word == "init"@ {
        CommandSpec::Init {
            recursive: args.contains("--recursive"@) || args.contains("-r"@),
            dir: match first_other(if args.len() >= 2 {
                args.skip(2)
            } else {
                Seq::empty()
            }, init_flags()) {
                Some(d) => d,
                None => "."@,
            },
        }
    } else if has_word && word == "run"@ {
        CommandSpec::Run {
            dirs: dirs_after(args, 2, clipboard_flags()),
            clipboard: args.contains("--clipboard"@) || args.contains("-c"@),
        }
    } else {
        CommandSpec::Unknown { command: word }
    }
}

fn has_arg(args: &Vec<String>, a: &str) -> (r: bool)
    ensures
        r == string_texts(args@).contains(a@),
{
    proof {
        lemma_string_texts_contains(args@, a@);
    }
    contains_string(args, a)
}

fn trim_slashes_exec(s: &str) -> (r: String)
    ensures
        r@ == trim_slashes(s@),
{
    let v = chars_of(s);
    let mut j: usize = v.len();
    proof {
        assert(v@.subrange(0, j as int) =~= v@);
    }
    while j > 0 && v[j - 1] == '/'
        invariant
            j <= v@.len(),
            trim_slashes(v@.subrange(0, j as int)) == trim_slashes(s@),
            v@ == s@,
        decreases j,
    {
        assert(v@.subrange(0, j as int).drop_last() =~= v@.subrange(0, j - 1));
        j = j - 1;
    }
    string_of_range(&v, 0, j)
}

/// The directories named after position `skip` (see `dirs_after`).
fn dirs_after_exec(args: &Vec<String>, skip: usize, flags: &Vec<String>) -> (r: Vec<String>)
    ensures
        string_texts(r@) == dirs_after(string_texts(args@), skip as int, string_texts(flags@)),
{
    let ghost a = string_texts(args@);
    let ghost f = string_texts(flags@);
    let ghost tail = if skip <= a.len() {
        a.skip(skip as int)
    } else {
        Seq::<Seq<char>>::empty()
    };
    let mut r: Vec<String> = Vec::new();
    let mut i: usize = skip;
    proof {
        assert(tail.take(0) =~= Seq::<Seq<char>>::empty());
        assert(string_texts(r@) =~= Seq::<Seq<char>>::empty());
    }
    while i < args.len()
        invariant
            a == string_texts(args@),
            f == string_texts(flags@),
            skip <= i,
            skip <= a.len() ==> i <= a.len(),
            i < a.len() ==> skip <= a.len(),
            tail == (if skip <= a.len() {
                a.skip(skip as int)
            } else {
                Seq::<Seq<char>>::empty()
            }),
            string_texts(r@) == dir_words(
                tail.take(if skip <= a.len() {
                    i - skip
                } else {
                    0
                }),
                f,
            ),
        decreases args@.len() - i,
    {
        let w = args[i].as_str();
        proof {
            let t = tail.take(i - skip + 1);
            assert(t.drop_last() =~= tail.take(i - skip));
            assert(t.last() == a[i as int]);
            lemma_string_texts_contains(flags@, w@);
        }
        if !contains_string(flags, w) {
            let d = trim_slashes_exec(w);
            proof {
                assert(string_texts(r@.push(d)) =~= string_texts(r@).push(d@));
            }
            r.push(d);
        }
        i = i + 1;
    }
    proof {
        if skip <= a.len() {
            assert(tail.take(a.len() - skip) =~= tail);
        } else {
            assert(tail.take(0) =~= tail);
        }
    }
    if r.len() == 0 {
        let mut d: Vec<String> = Vec::new();
        d.push(".".to_owned());
        assert(string_texts(d@) =~= seq!["."@]);
        d
    } else {
        r
    }
}

fn strings(list: &[&str]) -> (r: Vec<String>)
    ensures
        string_texts(r@) == list@.map_values(|s: &str| s@),
{
    let mut r: Vec<String> = Vec::new();
    let mut i: usize = 0;
    while i < list.len()
        invariant
            i <= list@.len(),
            string_texts(r@) == list@.map_values(|s: &str| s@).take(i as int),
        decreases list@.len() - i,
    {
        let t = list[i].to_owned();
        proof {
            let m = list@.map_values(|x: &str| x@);
            assert(m[i as int] == t@);
            assert(string_texts(r@.push(t)) =~= string_texts(r@).push(t@));
            assert(m.take(i + 1) =~= m.take(i as int).push(m[i as int]));
        }
        r.push(t);
        i = i + 1;
    }
    assert(list@.map_values(|s: &str| s@).take(list@.len() as int) =~= list@.map_values(
        |s: &str| s@,
    ));
    r
}

/// The first argument at or after `skip` that is not an `init` flag.
fn init_dir(args: &Vec<String>) -> (r: String)
    ensures
        r@ == match first_other(
            if string_texts(args@).len() >= 2 {
                string_texts(args@).skip(2)
            } else {
                Seq::empty()
            },
            init_flags(),
        ) {
            Some(d) => d,
            None => "."@,
        },
{
    let ghost a = string_texts(args@);
    let ghost tail = if a.len() >= 2 {
        a.skip(2)
    } else {
        Seq::<Seq<char>>::empty()
    };
    let mut i: usize = 2;
    proof {
        if a.len() >= 2 {
            assert(tail =~= a.skip(2));
        }
    }
    while i < args.len()
        invariant
            a == string_texts(args@),
            2 <= i,
            i < a.len() ==> tail == a.skip(2),
            a.len() >= 2 ==> i <= a.len(),
            first_other(tail, init_flags()) == first_other(
                if i <= a.len() {
                    a.skip(i as int)
                } else {
                    Seq::empty()
                },
                init_flags(),
            ),
        decreases args@.len() - i,
    {
        let w = args[i].as_str();
        proof {
            assert(a.skip(i as int)[0] == w@);
            assert(a.skip(i as int).drop_first() =~= a.skip(i + 1));
        }
        if !str_equal(w, "--recursive") && !str_equal(w, "-r") {
            proof {
                assert(!init_flags().contains(w@)) by {
                    if init_flags().contains(w@) {
                        let k = choose|k: int| 0 <= k < 2 && init_flags()[k] == w@;
                        assert(k == 0 || k == 1);
                    }
                }
            }
            return w.to_owned();
        }
        proof {
            if w@ == "--recursive"@ {
                assert(init_flags()[0] == w@);
            } else {
                assert(init_flags()[1] == w@);
            }
        }
        i = i + 1;
    }
    proof {
        if i <= a.len() {
            assert(a.skip(i as int) =~= Seq::<Seq<char>>::empty());
        }
    }
    ".".to_owned()
}

/// The command that the arguments `args` ask for (see `command_of`);
/// `args[0]` is the program.
pub fn parse_args(args: &Vec<String>) -> (c: Command)
    ensures
        c@ == command_of(string_texts(args@)),
{
    let ghost a = string_texts(args@);
    if has_arg(args, "-h") || has_arg(args, "--help") {
        return Command::Help;
    }
    if has_arg(args, "-v") || has_arg(args, "--version") {
        return Command::Version;
    }
    let has_word = args.len() > 1;
    let word: &str = if has_word {
        args[1].as_str()
    } else {
        ""
    };
    proof {
        if has_word {
            assert(word@ == a[1]);
        } else {
            reveal_strlit("");
            assert(word@ =~= Seq::<char>::empty());
        }
    }
    if has_word && str_equal(word, "diff") {
        let clipboard = has_arg(args, "--clipboard") || has_arg(args, "-c");
        let flags = strings(&["--clipboard", "-c", "--staged"]);
        proof {
            assert(string_texts(flags@) =~= diff_flags());
        }
        if has_arg(args, "--staged") {
            let dirs = dirs_after_exec(args, 2, &flags);
            return Command::Diff { commit: None, dirs, clipboard };
        }
        if args.len() > 2 {
            let c = args[2].as_str();
            let cv = chars_of(c);
            proof {
                assert(c@ == a[2]);
            }
            if !(cv.len() > 0 && cv[0] == '-') {
                let dirs = dirs_after_exec(args, 3, &flags);
                return Command::Diff { commit: Some(c.to_owned()), dirs, clipboard };
            }
        }
        return Command::MissingCommit;
    }
    if has_word && str_equal(word, "list") {
        let dir = if args.len() > 2 {
            args[2].clone()
        } else {
            ".".to_owned()
        };
        return Command::List { dir };
    }
    if has_word && str_equal(word, "update") {
        let dir = if args.len() > 2 {
            args[2].clone()
        } else {
            ".".to_owned()
        };
        return Command::Update { dir };
    }
    if has_word && str_equal(word, "init") {
        let recursive = has_arg(args, "--recursive") || has_arg(args, "-r");
        let dir = init_dir(args);
        return Command::Init { recursive, dir };
    }
    if has_word && str_equal(word, "run") {
        let clipboard = has_arg(args, "--clipboard") || has_arg(args, "-c");
        let flags = strings(&["--clipboard", "-c"]);
        proof {
            assert(string_texts(flags@) =~= clipboard_flags());
        }
        let dirs = dirs_after_exec(args, 2, &flags);
        return Command::Run { dirs, clipboard };
    }
    Command::Unknown { command: word.to_owned() }
}

} // verus!
