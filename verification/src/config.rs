//! Parsing of the benchmark configuration document.
//!
//! A configuration is a YAML mapping: optional global defaults for command,
//! count, directory, args and environment, and a `cases` sequence whose
//! entries override them.  Every way a document can be unusable is an
//! explicit `ConfigError`, found before anything is scheduled.

use vstd::prelude::*;

use crate::benchmarking::clone_strings;
use crate::name_map::{map_insert, NameMap};
use crate::num_text::{i64_to_string, spec_i64_str};
use crate::run_config::{config_map_valid, config_valid, RunConfig, RunConfigV};
use crate::yaml::{load_yaml, spec_index, yaml_docs_of, yaml_index, YamlData};

verus! {

/// Why a configuration document was rejected.
#[derive(Clone, Copy, Debug, PartialEq, Eq, Structural)]
pub enum ConfigError {
    /// the text is not valid YAML
    InvalidYaml,
    /// the text holds no document at all
    NoDocument,
    /// the document has no `cases` sequence
    MissingCases,
    /// an argument is neither a string, a number, nor null
    BadArgument,
    /// an environment entry is not a string
    BadEnvironment,
    /// a case ends up with an empty command
    MissingCommand,
    /// a case asks for fewer than one trial
    InvalidCount,
}

/// The string stored under `key`, if the document is a mapping holding a
/// string there.
pub open spec fn spec_lookup_str(doc: YamlData, key: Seq<char>) -> Option<Seq<char>> {
    match spec_index(doc, key) {
        Some(v) => v.spec_as_str(),
        None => None,
    }
}

/// The integer stored under `key`, if the document is a mapping holding an
/// integer there.
pub open spec fn spec_lookup_i64(doc: YamlData, key: Seq<char>) -> Option<i64> {
    match spec_index(doc, key) {
        Some(v) => v.spec_as_i64(),
        None => None,
    }
}

/// The argument list a YAML sequence denotes: floats keep their raw text,
/// integers are written in decimal, strings stand as they are, nulls are
/// dropped; anything else is no argument list.
pub open spec fn spec_args_list(args: Seq<YamlData>) -> Option<Seq<Seq<char>>>
    decreases args.len(),
{
    if args.len() == 0 {
        Some(Seq::empty())
    } else {
        match spec_args_list(args.drop_last()) {
            None => None,
            Some(r) => match args.last() {
                YamlData::Real(a) => Some(r.push(a@)),
                YamlData::Integer(a) => Some(r.push(spec_i64_str(a as int))),
                YamlData::Str(a) => Some(r.push(a@)),
                YamlData::Null => Some(r),
                _ => None,
            },
        }
    }
}

/// The string list a YAML sequence denotes; only strings are accepted.
pub open spec fn spec_string_list(vals: Seq<YamlData>) -> Option<Seq<Seq<char>>>
    decreases vals.len(),
{
    if vals.len() == 0 {
        Some(Seq::empty())
    } else {
        match spec_string_list(vals.drop_last()) {
            None => None,
            Some(r) => match vals.last() {
                YamlData::Str(a) => Some(r.push(a@)),
                _ => None,
            },
        }
    }
}

/// The document-wide defaults a configuration's top level provides.
pub ghost struct DefaultsV {
    pub cmd: Seq<char>,
    pub count: i64,
    pub dir: Seq<char>,
    pub args: Seq<Seq<char>>,
    pub env: Seq<Seq<char>>,
}

/// The defaults the top level of the document provides: empty command, one
/// trial, the current directory, no arguments and one empty environment
/// entry, each overridden by an entry of the same name.
pub open spec fn spec_defaults(doc: YamlData) -> Result<DefaultsV, ConfigError> {
    let args = match spec_index(doc, "args"@) {
        Some(YamlData::Array(a)) => spec_args_list(a@),
        _ => Some(Seq::empty()),
    };
    let env = match spec_index(doc, "environment"@) {
        Some(YamlData::Array(a)) => spec_string_list(a@),
        _ => Some(seq![Seq::<char>::empty()]),
    };
    if args is None {
        Err(ConfigError::BadArgument)
    } else if env is None {
        Err(ConfigError::BadEnvironment)
    } else {
        Ok(
            DefaultsV {
                cmd: spec_lookup_str(doc, "command"@).unwrap_or(Seq::empty()),
                count: spec_lookup_i64(doc, "count"@).unwrap_or(1),
                dir: spec_lookup_str(doc, "directory"@).unwrap_or("."@),
                args: args.unwrap(),
                env: env.unwrap(),
            },
        )
    }
}

/// The named configuration one `cases` entry denotes, against the given
/// defaults; or the first error it holds.
pub open spec fn spec_case(bm: YamlData, d: DefaultsV) -> Result<
    (Seq<char>, RunConfigV),
    ConfigError,
> {
    let cmd = spec_lookup_str(bm, "command"@).unwrap_or(d.cmd);
    let args = match spec_index(bm, "args"@) {
        Some(YamlData::Array(a)) => spec_args_list(a@),
        _ => Some(d.args),
    };
    let count = spec_lookup_i64(bm, "count"@).unwrap_or(d.count);
    let env = match spec_index(bm, "environment"@) {
        Some(YamlData::Array(a)) => spec_string_list(a@),
        _ => Some(d.env),
    };
    if cmd.len() == 0 {
        Err(ConfigError::MissingCommand)
    } else if args is None {
        Err(ConfigError::BadArgument)
    } else if count < 1 {
        Err(ConfigError::InvalidCount)
    } else if env is None {
        Err(ConfigError::BadEnvironment)
    } else {
        let name = spec_lookup_str(bm, "name"@).unwrap_or(cmd);
        Ok(
            (
                name,
                RunConfigV {
                    name: name,
                    description: spec_lookup_str(bm, "description"@).unwrap_or(Seq::empty()),
                    count: count,
                    command: cmd,
                    args: args.unwrap(),
                    directory: spec_lookup_str(bm, "directory"@).unwrap_or(d.dir),
                    environment: env.unwrap(),
                },
            ),
        )
    }
}

/// The configuration mapping the `cases` entries denote, folded into `acc`
/// in document order; a later case of the same name replaces an earlier one.
pub open spec fn spec_cases(
    cases: Seq<YamlData>,
    d: DefaultsV,
    acc: Seq<(Seq<char>, RunConfigV)>,
) -> Result<Seq<(Seq<char>, RunConfigV)>, ConfigError>
    decreases cases.len(),
{
    if cases.len() == 0 {
        Ok(acc)
    } else {
        match spec_case(cases[0], d) {
            Err(e) => Err(e),
            Ok((name, cfg)) => spec_cases(cases.skip(1), d, map_insert(acc, name, cfg)),
        }
    }
}

/// The configuration mapping a whole document denotes: its defaults applied
/// to each entry of its `cases` sequence.
pub open spec fn spec_config_from_yaml(doc: YamlData) -> Result<
    Seq<(Seq<char>, RunConfigV)>,
    ConfigError,
> {
    match spec_defaults(doc) {
        Err(e) => Err(e),
        Ok(d) => match spec_index(doc, "cases"@) {
            Some(YamlData::Array(cs)) => spec_cases(cs@, d, Seq::empty()),
            _ => Err(ConfigError::MissingCases),
        },
    }
}

/// The configuration that a piece of text denotes: the interpretation of
/// the first parsed document, or the error that stops it — invalid YAML, an
/// empty document stream, or a rejected document.
pub open spec fn spec_parse_config(text: Seq<char>) -> Result<
    Seq<(Seq<char>, RunConfigV)>,
    ConfigError,
> {
    match yaml_docs_of(text) {
        None => Err(ConfigError::InvalidYaml),
        Some(docs) => if docs.len() == 0 {
            Err(ConfigError::NoDocument)
        } else {
            spec_config_from_yaml(docs[0])
        },
    }
}

/// Look a string-valued entry up in a mapping.
fn lookup_str<'a>(doc: &'a YamlData, key: &str) -> (r: Option<&'a String>)
    ensures
        match r {
            Some(s) => spec_lookup_str(*doc, key@) == Some(s@),
            None => spec_lookup_str(*doc, key@) is None,
        },
{
    match yaml_index(doc, key) {
        Some(v) => v.as_str(),
        None => None,
    }
}

/// Look an integer-valued entry up in a mapping.
fn lookup_i64(doc: &YamlData, key: &str) -> (r: Option<i64>)
    ensures
        r == spec_lookup_i64(*doc, key@),
{
    match yaml_index(doc, key) {
        Some(v) => v.as_i64(),
        None => None,
    }
}

/// Look a sequence-valued entry up in a mapping.
fn lookup_vec<'a>(doc: &'a YamlData, key: &str) -> (r: Option<&'a Vec<YamlData>>)
    ensures
        match r {
            Some(v) => spec_index(*doc, key@) matches Some(w) && w matches YamlData::Array(a)
                && v@ == a@,
            None => !(spec_index(*doc, key@) matches Some(w) && w matches YamlData::Array(_)),
        },
{
    match yaml_index(doc, key) {
        Some(v) => v.as_vec(),
        None => None,
    }
}

/// A sequence with an unusable argument denotes no argument list.
proof fn lemma_args_bad(args: Seq<YamlData>, i: int)
    requires
        0 <= i < args.len(),
        !match args[i] {
            YamlData::Real(_) => true,
            YamlData::Integer(_) => true,
            YamlData::Str(_) => true,
            YamlData::Null => true,
            _ => false,
        },
    ensures
        spec_args_list(args) is None,
    decreases args.len(),
{
    if i < args.len() - 1 {
        assert(forall|j: int|
            0 <= j < args.drop_last().len() ==> #[trigger] args.drop_last()[j] == args[j]);
        lemma_args_bad(args.drop_last(), i);
    }
}

/// A sequence with a non-string entry denotes no string list.
proof fn lemma_strings_bad(vals: Seq<YamlData>, i: int)
    requires
        0 <= i < vals.len(),
        !(vals[i] matches YamlData::Str(_)),
    ensures
        spec_string_list(vals) is None,
    decreases vals.len(),
{
    if i < vals.len() - 1 {
        assert(forall|j: int|
            0 <= j < vals.drop_last().len() ==> #[trigger] vals.drop_last()[j] == vals[j]);
        lemma_strings_bad(vals.drop_last(), i);
    }
}

/// Turn a YAML sequence into the list of command-line argument strings it
/// denotes: floats keep their raw text, integers are written in decimal,
/// strings stand as they are, and nulls are dropped.
pub fn yaml_args_to_stringlist(args: &Vec<YamlData>) -> (r: Result<Vec<String>, ConfigError>)
    ensures
        match r {
            Ok(list) => spec_args_list(args@) == Some(list.deep_view()),
            Err(e) => spec_args_list(args@) is None && e == ConfigError::BadArgument,
        },
{
    let mut result: Vec<String> = Vec::new();
    let n = args.len();
    let mut i: usize = 0;
    while i < n
        invariant
            n == args@.len(),
            i <= n,
            spec_args_list(args@.take(i as int)) == Some(result.deep_view()),
        decreases n - i,
    {
        let ghost prev = result.deep_view();
        let arg: &YamlData = &args[i];
        match arg {
            YamlData::Real(a) => {
                result.push(a.clone());
                proof {
                    assert(result.deep_view() =~= prev.push(args@[i as int]->Real_0@));
                }
            },
            YamlData::Integer(a) => {
                result.push(i64_to_string(*a));
                proof {
                    assert(result.deep_view() =~= prev.push(
                        spec_i64_str(args@[i as int]->Integer_0 as int),
                    ));
                }
            },
            YamlData::Str(a) => {
                result.push(a.clone());
                proof {
                    assert(result.deep_view() =~= prev.push(args@[i as int]->Str_0@));
                }
            },
            YamlData::Null => {
            },
            _ => {
                proof {
                    lemma_args_bad(args@, i as int);
                }
                return Err(ConfigError::BadArgument);
            },
        }
        proof {
            assert(args@.take(i as int + 1).drop_last() =~= args@.take(i as int));
            assert(args@.take(i as int + 1).last() == args@[i as int]);
        }
        i += 1;
    }
    proof {
        assert(args@.take(n as int) =~= args@);
    }
    Ok(result)
}

/// The same as `yaml_args_to_stringlist`, but accepting only strings; used
/// for environment entries.
pub fn yaml_stringarray_to_native(strings: &Vec<YamlData>) -> (r: Result<Vec<String>, ConfigError>)
    ensures
        match r {
            Ok(list) => spec_string_list(strings@) == Some(list.deep_view()),
            Err(e) => spec_string_list(strings@) is None && e == ConfigError::BadEnvironment,
        },
{
    let mut result: Vec<String> = Vec::new();
    let n = strings.len();
    let mut i: usize = 0;
    while i < n
        invariant
            n == strings@.len(),
            i <= n,
            spec_string_list(strings@.take(i as int)) == Some(result.deep_view()),
        decreases n - i,
    {
        let ghost prev = result.deep_view();
        let val: &YamlData = &strings[i];
        match val {
            YamlData::Str(a) => {
                result.push(a.clone());
                proof {
                    assert(result.deep_view() =~= prev.push(strings@[i as int]->Str_0@));
                }
            },
            _ => {
                proof {
                    lemma_strings_bad(strings@, i as int);
                }
                return Err(ConfigError::BadEnvironment);
            },
        }
        proof {
            assert(strings@.take(i as int + 1).drop_last() =~= strings@.take(i as int));
            assert(strings@.take(i as int + 1).last() == strings@[i as int]);
        }
        i += 1;
    }
    proof {
        assert(strings@.take(n as int) =~= strings@);
    }
    Ok(result)
}

/// A valid entry inserted into a valid mapping keeps every entry valid.
proof fn lemma_insert_keeps_valid(s: Seq<(Seq<char>, RunConfigV)>, k: Seq<char>, c: RunConfigV)
    requires
        config_map_valid(s),
        config_valid(c),
    ensures
        config_map_valid(map_insert(s, k, c)),
    decreases s.len(),
{
    let r = map_insert(s, k, c);
    if s.len() == 0 {
        assert(r == seq![(k, c)]);
        assert(forall|i: int| 0 <= i < r.len() ==> r[i] == (k, c));
    } else if crate::strkey::lex_lt(k, s[0].0) {
        assert(r == seq![(k, c)] + s);
        assert(forall|i: int| 1 <= i < r.len() ==> r[i] == s[i - 1]);
        assert(r[0] == (k, c));
    } else if k == s[0].0 {
        assert(r == seq![(k, c)] + s.skip(1));
        assert(forall|i: int| 1 <= i < r.len() ==> r[i] == s[i]);
        assert(r[0] == (k, c));
    } else {
        assert(forall|j: int| 0 <= j < s.skip(1).len() ==> #[trigger] s.skip(1)[j] == s[j + 1]);
        lemma_insert_keeps_valid(s.skip(1), k, c);
        let t = map_insert(s.skip(1), k, c);
        assert(r == seq![s[0]] + t);
        assert(forall|i: int| 1 <= i < r.len() ==> r[i] == t[i - 1]);
        assert(r[0] == s[0]);
    }
}

/// Parse a YAML document as the configuration: top-level defaults applied
/// to each entry of its `cases` sequence, keyed by case name in
/// lexicographic order, a later case of a name replacing an earlier one.
/// Every case ends up with a non-empty command and a count of at least one.
pub fn config_from_yaml(doc: &YamlData) -> (r: Result<NameMap<RunConfig>, ConfigError>)
    ensures
        match r {
            Ok(m) => spec_config_from_yaml(*doc) == Ok::<_, ConfigError>(m@) && m.wf()
                && config_map_valid(m@),
            Err(e) => spec_config_from_yaml(*doc) == Err::<Seq<(Seq<char>, RunConfigV)>, _>(e),
        },
{
    // document-wide defaults, in the order the document is read
    let default_args: Vec<String> = match lookup_vec(doc, "args") {
        Some(v) => match yaml_args_to_stringlist(v) {
            Ok(l) => l,
            Err(e) => {
                return Err(e);
            },
        },
        None => Vec::new(),
    };
    let default_env: Vec<String> = match lookup_vec(doc, "environment") {
        Some(v) => match yaml_stringarray_to_native(v) {
            Ok(l) => l,
            Err(e) => {
                return Err(e);
            },
        },
        None => {
            let mut v: Vec<String> = Vec::new();
            v.push(String::new());
            proof {
                assert(v.deep_view() =~= seq![Seq::<char>::empty()]);
            }
            v
        },
    };
    proof {
        assert(default_args.deep_view() =~= default_args.deep_view());
    }
    let ghost d = spec_defaults(*doc)->Ok_0;
    proof {
        assert(spec_defaults(*doc) == Ok::<DefaultsV, ConfigError>(d));
        assert(d.args == default_args.deep_view());
        assert(d.env == default_env.deep_view());
    }
    let default_cmd: Option<&String> = lookup_str(doc, "command");
    let default_count: i64 = match lookup_i64(doc, "count") {
        Some(c) => c,
        None => 1,
    };
    let default_dir: Option<&String> = lookup_str(doc, "directory");
    proof {
        assert(match default_cmd {
            Some(s) => d.cmd == s@,
            None => d.cmd == Seq::<char>::empty(),
        });
        assert(d.count == default_count);
        assert(match default_dir {
            Some(s) => d.dir == s@,
            None => d.dir == "."@,
        });
    }
    let cases: &Vec<YamlData> = match lookup_vec(doc, "cases") {
        Some(v) => v,
        None => {
            return Err(ConfigError::MissingCases);
        },
    };
    let mut cfg: NameMap<RunConfig> = NameMap::new();
    let n = cases.len();
    let mut i: usize = 0;
    proof {
        assert(cases@.skip(0) =~= cases@);
    }
    while i < n
        invariant
            n == cases@.len(),
            i <= n,
            cfg.wf(),
            config_map_valid(cfg@),
            spec_defaults(*doc) == Ok::<DefaultsV, ConfigError>(d),
            d.count == default_count,
            match default_cmd {
                Some(s) => d.cmd == s@,
                None => d.cmd == Seq::<char>::empty(),
            },
            match default_dir {
                Some(s) => d.dir == s@,
                None => d.dir == "."@,
            },
            d.args == default_args.deep_view(),
            d.env == default_env.deep_view(),
            spec_config_from_yaml(*doc) == spec_cases(cases@, d, Seq::empty()),
            spec_cases(cases@, d, Seq::empty()) == spec_cases(cases@.skip(i as int), d, cfg@),
        decreases n - i,
    {
        let bm: &YamlData = &cases[i];
        let ghost bmv = cases@[i as int];
        proof {
            assert(cases@.skip(i as int)[0] == bmv);
            assert(cases@.skip(i as int).skip(1) =~= cases@.skip(i as int + 1));
        }
        // command: the case's own, else the document default
        let cmd: String = match lookup_str(bm, "command") {
            Some(s) => s.clone(),
            None => match default_cmd {
                Some(s) => s.clone(),
                None => String::new(),
            },
        };
        proof {
            assert(cmd@ == spec_lookup_str(bmv, "command"@).unwrap_or(d.cmd));
        }
        if cmd.as_str().is_empty() {
            proof {
                assert(spec_case(bmv, d) == Err::<(Seq<char>, RunConfigV), _>(
                    ConfigError::MissingCommand,
                ));
            }
            return Err(ConfigError::MissingCommand);
        }
        // arguments: the case's own list, else the document default
        let args: Vec<String> = match lookup_vec(bm, "args") {
            Some(v) => match yaml_args_to_stringlist(v) {
                Ok(l) => l,
                Err(e) => {
                    proof {
                        assert(spec_case(bmv, d) == Err::<(Seq<char>, RunConfigV), _>(e));
                    }
                    return Err(e);
                },
            },
            None => clone_strings(&default_args),
        };
        // repeat count: the case's own, else the document default
        let count: i64 = match lookup_i64(bm, "count") {
            Some(c) => c,
            None => default_count,
        };
        if count < 1 {
            proof {
                assert(spec_case(bmv, d) == Err::<(Seq<char>, RunConfigV), _>(
                    ConfigError::InvalidCount,
                ));
            }
            return Err(ConfigError::InvalidCount);
        }
        // environment: the case's own list, else the document default
        let environment: Vec<String> = match lookup_vec(bm, "environment") {
            Some(v) => match yaml_stringarray_to_native(v) {
                Ok(l) => l,
                Err(e) => {
                    proof {
                        assert(spec_case(bmv, d) == Err::<(Seq<char>, RunConfigV), _>(e));
                    }
                    return Err(e);
                },
            },
            None => clone_strings(&default_env),
        };
        // the case is keyed by its name, the command standing in for one
        let name: String = match lookup_str(bm, "name") {
            Some(s) => s.clone(),
            None => cmd.clone(),
        };
        let description: String = match lookup_str(bm, "description") {
            Some(s) => s.clone(),
            None => String::new(),
        };
        let directory: String = match lookup_str(bm, "directory") {
            Some(s) => s.clone(),
            None => match default_dir {
                Some(s) => s.clone(),
                None => String::from_str("."),
            },
        };
        let rc = RunConfig {
            name: name.clone(),
            description: description,
            count: count,
            command: cmd,
            args: args,
            directory: directory,
            environment: environment,
        };
        let ghost prev = cfg@;
        proof {
            reveal_strlit(".");
            assert(spec_case(bmv, d) == Ok::<(Seq<char>, RunConfigV), ConfigError>(
                (name@, rc@),
            ));
            assert(config_valid(rc@));
        }
        cfg.insert(name, rc);
        proof {
            lemma_insert_keeps_valid(prev, rc@.name, rc@);
            assert(spec_cases(cases@.skip(i as int), d, prev) == spec_cases(
                cases@.skip(i as int + 1),
                d,
                cfg@,
            ));
        }
        i += 1;
    }
    proof {
        assert(cases@.skip(n as int) =~= Seq::<YamlData>::empty());
        assert(spec_cases(Seq::empty(), d, cfg@) == Ok::<_, ConfigError>(cfg@));
    }
    Ok(cfg)
}

/// Parse configuration text and build the mapping of benchmark cases it
/// describes: exactly `spec_parse_config` of the text.  Whatever comes back
/// satisfies the engine's invariant: every case carries a non-empty command
/// and a positive count, and the mapping iterates in lexicographic name
/// order.
pub fn parse_config_file(text: &str) -> (r: Result<NameMap<RunConfig>, ConfigError>)
    ensures
        match r {
            Ok(m) => spec_parse_config(text@) == Ok::<_, ConfigError>(m@) && m.wf()
                && config_map_valid(m@),
            Err(e) => spec_parse_config(text@) == Err::<Seq<(Seq<char>, RunConfigV)>, _>(e),
        },
{
    let docs = match load_yaml(text) {
        Some(d) => d,
        None => {
            return Err(ConfigError::InvalidYaml);
        },
    };
    if docs.len() == 0 {
        return Err(ConfigError::NoDocument);
    }
    config_from_yaml(&docs[0])
}

} // verus!
