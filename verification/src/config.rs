//! Operator configuration from `.arghda/config.toml`:
//!
//! ```toml
//! [lint]
//! headline_pattern = "^[a-z][A-Za-z0-9-]*$"
//! ```
//!
//! Precedence (low to high): the built-in defaults, the file, a CLI flag.
//! A missing file is not an error; unknown keys are rejected so a typo
//! surfaces rather than being silently ignored.

use vstd::prelude::*;
use crate::lint::RuleConfig;
use crate::lint::unpinned_headline::DEFAULT_HEADLINE_PATTERN;

verus! {

/// Conventional config location, relative to a source tree or workspace
/// root.
pub const CONFIG_REL_PATH: &'static str = ".arghda/config.toml";

/// A TOML document's top level as plain values: each key with, when its
/// value is a table, that table's keys and their string values (`None` for
/// a value that is not a string).
pub type TomlShape = Vec<(String, Option<Vec<(String, Option<String>)>>)>;

/// The view of a TOML shape.
pub open spec fn shape_view(t: TomlShape) -> Seq<(Seq<char>, Option<Seq<(Seq<char>, Option<Seq<char>>)>>)> {
    t@.map_values(|e: (String, Option<Vec<(String, Option<String>)>>)| (e.0@, match e.1 {
        Some(v) => Some(v@.map_values(|f: (String, Option<String>)| (f.0@, match f.1 { Some(s) => Some(s@), None => None }))),
        None => None,
    }))
}

/// The top level of the TOML document `text`, as `toml::from_str` into a
/// table reads it; `None` when it is not valid TOML.
pub uninterp spec fn toml_top(text: Seq<char>) -> Option<Seq<(Seq<char>, Option<Seq<(Seq<char>, Option<Seq<char>>)>>)>>;

/// Parses `text` with `toml::from_str` into a table and lists its top-level
/// keys, each with its sub-table's keys and string values.
#[verifier::external_body]
fn toml_shape(text: &str) -> (r: Result<TomlShape, String>)
    ensures
        r is Ok <==> toml_top(text@) is Some,
        r matches Ok(t) ==> toml_top(text@) == Some(shape_view(t)),
{
    match toml::from_str::<toml::Table>(text) {
        Ok(t) => Ok(t.iter().map(|(k, v)| (k.clone(), v.as_table().map(|s| {
            s.iter().map(|(k2, v2)| (k2.clone(), v2.as_str().map(String::from))).collect()
        }))).collect()),
        Err(e) => Err(e.to_string()),
    }
}

/// A `[lint]` table is acceptable: its only key is `headline_pattern`,
/// with a string value.
pub open spec fn lint_table_ok(t: Seq<(Seq<char>, Option<Seq<char>>)>) -> bool {
    forall|i: int| 0 <= i < t.len() ==> (#[trigger] t[i]).0 == "headline_pattern"@ && t[i].1 is Some
}

/// A config document is acceptable: its only key is the `lint` table.
pub open spec fn config_ok(top: Seq<(Seq<char>, Option<Seq<(Seq<char>, Option<Seq<char>>)>>)>) -> bool {
    forall|i: int| 0 <= i < top.len() ==> ((#[trigger] top[i]).0 == "lint"@ && (top[i].1 matches Some(t) && lint_table_ok(t)))
}

/// The headline pattern a config document sets, if any: that of the last
/// non-empty `lint` table.
pub open spec fn pattern_of(top: Seq<(Seq<char>, Option<Seq<(Seq<char>, Option<Seq<char>>)>>)>) -> Option<Seq<char>>
    decreases top.len(),
{
    if top.len() == 0 {
        None
    } else {
        match top.last().1 {
            Some(t) => if t.len() > 0 { t[0].1 } else { pattern_of(top.drop_last()) },
            None => pattern_of(top.drop_last()),
        }
    }
}

/// The rule settings a parsed config document gives: the defaults, with
/// the headline pattern overridden when the document sets one.
pub open spec fn overlaid(top: Seq<(Seq<char>, Option<Seq<(Seq<char>, Option<Seq<char>>)>>)>) -> Seq<char> {
    match pattern_of(top) {
        Some(p) => p,
        None => DEFAULT_HEADLINE_PATTERN@,
    }
}

/// Parses config TOML text into rule settings, overlaying the defaults;
/// fails on invalid TOML and on any key other than `lint.headline_pattern`
/// (or a value of the wrong type).
pub fn parse(text: &str) -> (r: Result<RuleConfig, String>)
    ensures
        r is Ok <==> (toml_top(text@) matches Some(top) && config_ok(top)),
        r matches Ok(c) ==> c.headline_pattern@ == overlaid(toml_top(text@)->0),
{
    let top = match toml_shape(text) {
        Ok(t) => t,
        Err(e) => return Err(e),
    };
    config_from_shape(&top)
}

/// The rule settings a parsed TOML document gives: the defaults, with the
/// headline pattern of its `lint` table; an error naming the first key
/// other than `lint.headline_pattern`, or a value of the wrong type.
pub fn config_from_shape(top: &TomlShape) -> (r: Result<RuleConfig, String>)
    ensures
        r is Ok <==> config_ok(shape_view(*top)),
        r matches Ok(c) ==> c.headline_pattern@ == overlaid(shape_view(*top)),
{
    let ghost tv = shape_view(*top);
    let mut pattern: Option<String> = None;
    let mut i: usize = 0;
    while i < top.len()
        invariant
            i <= top@.len(),
            tv == shape_view(*top),
            forall|a: int| 0 <= a < i ==> ((#[trigger] tv[a]).0 == "lint"@ && (tv[a].1 matches Some(t) && lint_table_ok(t))),
            pattern_of(tv.take(i as int)) == (match pattern { Some(p) => Some(p@), None => None }),
        decreases top.len() - i,
    {
        let (k, v) = &top[i];
        assert(tv[i as int].0 == k@);
        proof {
            assert(tv.take(i + 1).drop_last() =~= tv.take(i as int));
            assert(tv.take(i + 1).last() == tv[i as int]);
        }
        if !crate::text::str_eq(k.as_str(), "lint") {
            assert(!config_ok(tv)) by {
                assert(tv[i as int].0 != "lint"@);
            }
            return Err(unknown_key(k.as_str()));
        }
        let table = match v {
            Some(t) => t,
            None => {
                assert(!config_ok(tv)) by {
                    assert(tv[i as int].1 is None);
                }
                return Err(String::from_str("`lint` must be a table"));
            },
        };
        let ghost tt = tv[i as int].1->0;
        let mut j: usize = 0;
        while j < table.len()
            invariant
                j <= table@.len(),
                tt == table@.map_values(|f: (String, Option<String>)| (f.0@, match f.1 { Some(s) => Some(s@), None => None })),
                i < tv.len(),
                tv == shape_view(*top),
                tv[i as int].1 == Some(tt),
                forall|b: int| 0 <= b < j ==> (#[trigger] tt[b]).0 == "headline_pattern"@ && tt[b].1 is Some,
            decreases table.len() - j,
        {
            let (k2, v2) = &table[j];
            assert(tt[j as int].0 == k2@);
            if !crate::text::str_eq(k2.as_str(), "headline_pattern") {
                assert(!config_ok(tv)) by {
                    assert(!lint_table_ok(tt)) by {
                        assert(tt[j as int].0 != "headline_pattern"@);
                    }
                }
                return Err(unknown_key(k2.as_str()));
            }
            match v2 {
                Some(_) => {},
                None => {
                    assert(!config_ok(tv)) by {
                        assert(!lint_table_ok(tt)) by {
                            assert(tt[j as int].1 is None);
                        }
                    }
                    return Err(String::from_str("`headline_pattern` must be a string"));
                },
            }
            j = j + 1;
        }
        if table.len() > 0 {
            let (_, v2) = &table[0];
            assert(tt[0].1 == (match v2 { Some(s) => Some(s@), None => None }));
            match v2 {
                Some(p) => {
                    pattern = Some(p.clone());
                },
                None => {},
            }
        }
        i = i + 1;
    }
    let result = match pattern {
        Some(p) => p,
        None => String::from_str(DEFAULT_HEADLINE_PATTERN),
    };
    assert(tv.take(tv.len() as int) =~= tv);
    Ok(RuleConfig { headline_pattern: result })
}

/// The message for a key that the configuration does not know.
fn unknown_key(k: &str) -> (r: String)
    ensures
        r@ == "unknown key `"@ + k@ + "`"@,
{
    let mut s = crate::text::chars_of("unknown key `");
    let ghost head = s@;
    let kc = crate::text::chars_of(k);
    let mut i: usize = 0;
    while i < kc.len()
        invariant
            i <= kc@.len(),
            kc@ == k@,
            s@ == head + kc@.take(i as int),
        decreases kc.len() - i,
    {
        s.push(kc[i]);
        i = i + 1;
        assert(s@ =~= head + kc@.take(i as int));
    }
    assert(kc@.take(kc@.len() as int) =~= kc@);
    s.push('`');
    proof {
        reveal_strlit("unknown key `");
        reveal_strlit("`");
    }
    assert(s@ =~= "unknown key `"@ + k@ + "`"@);
    crate::text::string_of(&s)
}

/// The settings for a source tree: those of its `.arghda/config.toml`
/// when that file exists (its text given), else the defaults.
pub fn load_from_dir(config_text: Option<&str>) -> (r: Result<RuleConfig, String>)
    ensures
        config_text is None ==> (r matches Ok(c) && c.headline_pattern@ == DEFAULT_HEADLINE_PATTERN@),
        config_text matches Some(t) ==> (r is Ok <==> (toml_top(t@) matches Some(top) && config_ok(top)))
            && (r matches Ok(c) ==> c.headline_pattern@ == overlaid(toml_top(t@)->0)),
{
    match config_text {
        Some(t) => parse(t),
        None => Ok(RuleConfig::default()),
    }
}

/// The settings with a command-line headline pattern, when one is given,
/// taking precedence over those from the file or the defaults.
pub fn with_cli(cfg: RuleConfig, cli: Option<&str>) -> (r: RuleConfig)
    ensures
        r.headline_pattern@ == (match cli { Some(p) => p@, None => cfg.headline_pattern@ }),
{
    match cli {
        Some(p) => RuleConfig { headline_pattern: String::from_str(p) },
        None => cfg,
    }
}

/// The headline pattern in force: a command-line pattern wins over the
/// file's, which wins over the built-in default.
pub open spec fn effective_pattern(file_top: Option<Seq<(Seq<char>, Option<Seq<(Seq<char>, Option<Seq<char>>)>>)>>, cli: Option<Seq<char>>) -> Seq<char> {
    match cli {
        Some(p) => p,
        None => match file_top {
            Some(top) => overlaid(top),
            None => DEFAULT_HEADLINE_PATTERN@,
        },
    }
}

/// Precedence: built-in default < `config.toml` < command-line flag. For a
/// tree with or without a readable config file, the pattern that loading
/// the file and then applying the flag gives is the effective pattern.
pub proof fn lemma_config_precedence(config_text: Option<Seq<char>>, loaded: RuleConfig, cli: Option<Seq<char>>)
    requires
        config_text is None ==> loaded.headline_pattern@ == DEFAULT_HEADLINE_PATTERN@,
        config_text matches Some(t) ==> (toml_top(t) matches Some(top) && config_ok(top)
            && loaded.headline_pattern@ == overlaid(top)),
    ensures
        (match cli { Some(p) => p, None => loaded.headline_pattern@ }) == effective_pattern(
            match config_text { Some(t) => toml_top(t), None => None }, cli),
{
}

} // verus!
