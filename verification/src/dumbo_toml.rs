use vstd::prelude::*;

verus! {

// `Dumbo.toml` names, for each section (one per project directory), the
// languages of that directory under the key `lang`. The document is parsed by
// the `toml` crate; the library reads from the parsed value only what its
// tables hold as strings.

#[verifier::external_type_specification]
#[verifier::external_body]
pub struct ExTomlValue(toml::Value);

#[verifier::external_type_specification]
#[verifier::external_body]
pub struct ExTomlError(toml::de::Error);

/// The strings that a TOML value holds, each under the path of table keys
/// that leads to it: a string is itself under the empty path; a table holds
/// under `[k] + p` what its entry `k` holds under `p`; other values hold none.
pub uninterp spec fn toml_strings(v: toml::Value) -> Map<Seq<Seq<char>>, Seq<char>>;

/// The strings of the TOML document `content` (see `toml_strings`), or
/// `None` when it is no valid TOML document.
pub uninterp spec fn toml_document(content: Seq<char>) -> Option<Map<Seq<Seq<char>>, Seq<char>>>;

/// What `m` holds under the key `k`, by the rest of the path.
pub open spec fn under(m: Map<Seq<Seq<char>>, Seq<char>>, k: Seq<char>) -> Map<
    Seq<Seq<char>>,
    Seq<char>,
> {
    Map::new(|p: Seq<Seq<char>>| m.contains_key(seq![k] + p), |p: Seq<Seq<char>>| m[seq![k] + p])
}

/// Parses a TOML document (`<toml::Value as FromStr>::from_str`, which is
/// `toml::from_str`): it succeeds exactly when the document is valid, and the
/// value holds the document's strings.
#[verifier::external_body]
fn parse_toml(content: &str) -> (r: Result<toml::Value, toml::de::Error>)
    ensures
        r is Ok <==> toml_document(content@) is Some,
        r matches Ok(v) ==> toml_document(content@) == Some(toml_strings(v)),
{
    content.parse::<toml::Value>()
}

/// The entry `key` of a table (`toml::Value::get` with a `&str`): `None`
/// when the value is no table or has no such entry; the entry holds what the
/// table holds under `key`.
#[verifier::external_body]
fn toml_get<'a>(v: &'a toml::Value, key: &str) -> (r: Option<&'a toml::Value>)
    ensures
        r matches Some(c) ==> toml_strings(*c) == under(toml_strings(*v), key@),
        (exists|p: Seq<Seq<char>>| toml_strings(*v).contains_key(seq![key@] + p)) ==> r is Some,
{
    v.get(key)
}

/// The string a value is (`toml::Value::as_str`): `None` when it is no
/// string.
#[verifier::external_body]
fn toml_as_str(v: &toml::Value) -> (r: Option<&str>)
    ensures
        r matches Some(s) ==> toml_strings(*v).contains_key(Seq::empty()) && s@ == toml_strings(
            *v,
        )[Seq::empty()],
        r is None ==> !toml_strings(*v).contains_key(Seq::empty()),
{
    v.as_str()
}

/// The path of the `lang` entry of a section.
pub open spec fn lang_path(section: Seq<char>) -> Seq<Seq<char>> {
    seq![section, "lang"@]
}

/// The `lang` string of the table `section` among the strings `m`.
pub open spec fn lang_of(m: Map<Seq<Seq<char>>, Seq<char>>, section: Seq<char>) -> Option<Seq<char>> {
    if m.contains_key(lang_path(section)) {
        Some(m[lang_path(section)])
    } else {
        None
    }
}

/// The languages of `section` in a parsed `Dumbo.toml`: its `lang` string.
pub fn value_section_lang(value: &toml::Value, section: &str) -> (r: Option<String>)
    ensures
        match r {
            Some(s) => lang_of(toml_strings(*value), section@) == Some(s@),
            None => lang_of(toml_strings(*value), section@) is None,
        },
{
    let ghost m = toml_strings(*value);
    let ghost path = lang_path(section@);
    proof {
        if m.contains_key(path) {
            let p = seq!["lang"@];
            assert(seq![section@] + p =~= path);
        }
    }
    match toml_get(value, section) {
        None => None,
        Some(table) => {
            proof {
                let t = toml_strings(*table);
                if m.contains_key(path) {
                    assert(seq!["lang"@] + Seq::<Seq<char>>::empty() =~= seq!["lang"@]);
                    assert(seq![section@] + seq!["lang"@] =~= path);
                    assert(t.contains_key(seq!["lang"@] + Seq::<Seq<char>>::empty()));
                }
            }
            match toml_get(table, "lang") {
                None => None,
                Some(entry) => {
                    proof {
                        let t = toml_strings(*table);
                        let u = toml_strings(*entry);
                        assert(seq!["lang"@] + Seq::<Seq<char>>::empty() =~= seq!["lang"@]);
                        assert(seq![section@] + seq!["lang"@] =~= path);
                        assert(u.contains_key(Seq::empty()) == m.contains_key(path));
                    }
                    match toml_as_str(entry) {
                        None => None,
                        Some(s) => Some(s.to_owned()),
                    }
                },
            }
        },
    }
}

/// The languages of `section` in the `Dumbo.toml` text `content`: its `lang`
/// string, or `None` when the text is no valid TOML or has no such string.
pub fn read_section_lang(content: &str, section: &str) -> (r: Option<String>)
    ensures
        match toml_document(content@) {
            None => r is None,
            Some(m) => match r {
                Some(s) => lang_of(m, section@) == Some(s@),
                None => lang_of(m, section@) is None,
            },
        },
{
    match parse_toml(content) {
        Ok(v) => value_section_lang(&v, section),
        Err(_) => None,
    }
}

} // verus!
