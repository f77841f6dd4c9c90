use vstd::prelude::*;
use crate::text::str_equal;

verus! {

/// One supported language: the name given on the command line, the file
/// extensions that belong to it and the directories that hold no source.
pub struct LangDef {
    pub name: &'static str,
    pub extensions: &'static [&'static str],
    pub ignored_dirs: &'static [&'static str],
}

/// A language as plain text.
#[verifier::ext_equal]
pub struct LangSpec {
    pub name: Seq<char>,
    pub extensions: Seq<Seq<char>>,
    pub ignored_dirs: Seq<Seq<char>>,
}

/// The text of each string of a list.
pub open spec fn texts(list: Seq<&str>) -> Seq<Seq<char>> {
    list.map_values(|s: &str| s@)
}

impl View for LangDef {
    type V = LangSpec;

    open spec fn view(&self) -> LangSpec {
        LangSpec {
            name: self.name@,
            extensions: texts(self.extensions@),
            ignored_dirs: texts(self.ignored_dirs@),
        }
    }
}

/// The table of supported languages, in the order the tool lists them.
pub open spec fn spec_languages() -> Seq<LangSpec> {
    seq![
        LangSpec { name: "rs"@, extensions: seq!["rs"@], ignored_dirs: seq!["target"@, ".git"@] },
        LangSpec {
            name: "py"@,
            extensions: seq!["py"@],
            ignored_dirs: seq!["__pycache__"@, "venv"@, ".venv"@, ".git"@],
        },
        LangSpec {
            name: "js"@,
            extensions: seq!["js"@, "jsx"@],
            ignored_dirs: seq!["node_modules"@, "dist"@, ".git"@],
        },
        LangSpec {
            name: "ts"@,
            extensions: seq!["ts"@, "tsx"@],
            ignored_dirs: seq!["node_modules"@, "dist"@, ".git"@],
        },
        LangSpec { name: "go"@, extensions: seq!["go"@], ignored_dirs: seq!["vendor"@, ".git"@] },
        LangSpec {
            name: "java"@,
            extensions: seq!["java"@],
            ignored_dirs: seq!["target"@, "build"@, ".gradle"@, ".git"@],
        },
        LangSpec {
            name: "c"@,
            extensions: seq!["c"@, "h"@],
            ignored_dirs: seq!["build"@, "cmake-build-debug"@, "cmake-build-release"@, ".git"@],
        },
        LangSpec {
            name: "cpp"@,
            extensions: seq!["cpp"@, "cc"@, "cxx"@, "hpp"@, "h"@],
            ignored_dirs: seq!["build"@, "cmake-build-debug"@, "cmake-build-release"@, ".git"@],
        },
    ]
}

/// The table of supported languages.
pub fn languages() -> (r: &'static [LangDef])
    ensures
        r@.len() == spec_languages().len(),
        forall|i: int| 0 <= i < r@.len() ==> (#[trigger] r@[i])@ == spec_languages()[i],
{
    let r: &'static [LangDef] = &[
        LangDef { name: "rs", extensions: &["rs"], ignored_dirs: &["target", ".git"] },
        LangDef {
            name: "py",
            extensions: &["py"],
            ignored_dirs: &["__pycache__", "venv", ".venv", ".git"],
        },
        LangDef {
            name: "js",
            extensions: &["js", "jsx"],
            ignored_dirs: &["node_modules", "dist", ".git"],
        },
        LangDef {
            name: "ts",
            extensions: &["ts", "tsx"],
            ignored_dirs: &["node_modules", "dist", ".git"],
        },
        LangDef { name: "go", extensions: &["go"], ignored_dirs: &["vendor", ".git"] },
        LangDef {
            name: "java",
            extensions: &["java"],
            ignored_dirs: &["target", "build", ".gradle", ".git"],
        },
        LangDef {
            name: "c",
            extensions: &["c", "h"],
            ignored_dirs: &["build", "cmake-build-debug", "cmake-build-release", ".git"],
        },
        LangDef {
            name: "cpp",
            extensions: &["cpp", "cc", "cxx", "hpp", "h"],
            ignored_dirs: &["build", "cmake-build-debug", "cmake-build-release", ".git"],
        },
    ];
    proof {
        assert(r@[0]@ =~~= spec_languages()[0]);
        assert(r@[1]@ =~~= spec_languages()[1]);
        assert(r@[2]@ =~~= spec_languages()[2]);
        assert(r@[3]@ =~~= spec_languages()[3]);
        assert(r@[4]@ =~~= spec_languages()[4]);
        assert(r@[5]@ =~~= spec_languages()[5]);
        assert(r@[6]@ =~~= spec_languages()[6]);
        assert(r@[7]@ =~~= spec_languages()[7]);
    }
    r
}

/// The first language of `table` called `name`.
pub open spec fn lang_named(table: Seq<LangSpec>, name: Seq<char>) -> Option<LangSpec>
    decreases table.len(),
{
    if table.len() == 0 {
        None
    } else if table[0].name == name {
        Some(table[0])
    } else {
        lang_named(table.drop_first(), name)
    }
}

/// The supported language called `name`.
pub open spec fn find_lang_spec(name: Seq<char>) -> Option<LangSpec> {
    lang_named(spec_languages(), name)
}

proof fn lemma_lang_named(table: Seq<LangSpec>, name: Seq<char>, i: int)
    requires
        0 <= i <= table.len(),
        forall|j: int| 0 <= j < i ==> (#[trigger] table[j]).name != name,
    ensures
        i < table.len() && table[i].name == name ==> lang_named(table, name) == Some(table[i]),
        i == table.len() ==> lang_named(table, name) is None,
    decreases i,
{
    if i > 0 {
        let t = table.drop_first();
        assert forall|j: int| 0 <= j < i - 1 implies (#[trigger] t[j]).name != name by {
            assert(t[j] == table[j + 1]);
        }
        lemma_lang_named(t, name, i - 1);
    }
}

/// The supported language called `name`, if there is one.
pub fn find_lang(name: &str) -> (r: Option<&'static LangDef>)
    ensures
        match r {
            Some(l) => find_lang_spec(name@) == Some(l@),
            None => find_lang_spec(name@) is None,
        },
{
    let table = languages();
    let mut i: usize = 0;
    while i < table.len()
        invariant
            0 <= i <= table@.len(),
            table@.len() == spec_languages().len(),
            forall|k: int| 0 <= k < table@.len() ==> (#[trigger] table@[k])@ == spec_languages()[k],
            forall|j: int| 0 <= j < i ==> (#[trigger] spec_languages()[j]).name != name@,
        decreases table@.len() - i,
    {
        if str_equal(table[i].name, name) {
            proof {
                assert(table@[i as int]@ == spec_languages()[i as int]);
                lemma_lang_named(spec_languages(), name@, i as int);
            }
            return Some(&table[i]);
        }
        assert(table@[i as int]@ == spec_languages()[i as int]);
        i = i + 1;
    }
    proof {
        lemma_lang_named(spec_languages(), name@, i as int);
    }
    None
}

} // verus!
