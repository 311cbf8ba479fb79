//! Configuration: per-rule directives, targets, ignore patterns, baseline.

use crate::diagnostic::Severity;
use crate::text::{chars_of, lower_seq, lower_string, push_str, str_eq, string_of};
use vstd::prelude::*;

verus! {

/// A per-rule directive parsed from config.
#[derive(Clone, Copy, Debug, PartialEq, Eq, Structural)]
pub enum RuleDirective {
    /// Rule disabled.
    Off,
    /// Rule enabled, optionally with a severity override.
    On(Option<Severity>),
}

} // verus!

verus! {

/// The `[rules."<id>"]` directives of a config, one per rule id.
#[derive(Clone, Debug)]
pub struct RuleDirectives {
    pub entries: Vec<(String, RuleDirective)>,
}

/// The directive recorded for `id` among `s`, first match.
pub open spec fn directive_in(s: Seq<(String, RuleDirective)>, id: Seq<char>) -> Option<RuleDirective>
    decreases s.len(),
{
    if s.len() == 0 {
        None
    } else if s[0].0@ == id {
        Some(s[0].1)
    } else {
        directive_in(s.drop_first(), id)
    }
}

/// No id occurs twice.
pub open spec fn unique_ids(s: Seq<(String, RuleDirective)>) -> bool {
    forall|i: int, j: int| 0 <= i < j < s.len() ==> s[i].0@ != s[j].0@
}

impl RuleDirectives {
    pub open spec fn wf(&self) -> bool {
        unique_ids(self.entries@)
    }

    /// The directive for a rule id, as a function of ids.
    pub open spec fn spec_get(&self, id: Seq<char>) -> Option<RuleDirective> {
        directive_in(self.entries@, id)
    }

    pub fn new() -> (r: RuleDirectives)
        ensures
            r.wf(),
            forall|id: Seq<char>| r.spec_get(id) is None,
    {
        RuleDirectives { entries: Vec::new() }
    }

    pub fn get(&self, id: &str) -> (r: Option<RuleDirective>)
        ensures
            r == self.spec_get(id@),
    {
        let mut i: usize = 0;
        assert(self.entries@.skip(0) =~= self.entries@);
        while i < self.entries.len()
            invariant
                i <= self.entries@.len(),
                directive_in(self.entries@, id@) == directive_in(self.entries@.skip(i as int), id@),
            decreases self.entries@.len() - i,
        {
            assert(self.entries@.skip(i as int).drop_first() =~= self.entries@.skip(i + 1));
            if crate::text::str_eq(self.entries[i].0.as_str(), id) {
                return Some(self.entries[i].1);
            }
            i = i + 1;
        }
        None
    }

    /// Whether config turns the rule off.
    pub fn is_off(&self, id: &str) -> (r: bool)
        ensures
            r == (self.spec_get(id@) == Some(RuleDirective::Off)),
    {
        match self.get(id) {
            Some(RuleDirective::Off) => true,
            _ => false,
        }
    }

    /// Set the directive of a rule id, replacing an earlier one.
    pub fn insert(&mut self, id: String, d: RuleDirective)
        requires
            old(self).wf(),
        ensures
            final(self).wf(),
            final(self).spec_get(id@) == Some(d),
            forall|other: Seq<char>| other != id@ ==> final(self).spec_get(other) == old(self).spec_get(other),
    {
        let mut i: usize = 0;
        while i < self.entries.len()
            invariant
                i <= self.entries@.len(),
                self.entries@ == old(self).entries@,
                unique_ids(self.entries@),
                forall|k: int| 0 <= k < i ==> self.entries@[k].0@ != id@,
            decreases self.entries@.len() - i,
        {
            if crate::text::str_eq(self.entries[i].0.as_str(), id.as_str()) {
                let ghost before = self.entries@;
                self.entries.set(i, (id, d));
                proof {
                    lemma_directive_set(before, i as int, self.entries@[i as int]);
                }
                return;
            }
            i = i + 1;
        }
        let ghost before = self.entries@;
        let ghost idv = id@;
        self.entries.push((id, d));
        proof {
            lemma_directive_push(before, self.entries@.last());
        }
    }
}

proof fn lemma_directive_absent(s: Seq<(String, RuleDirective)>, id: Seq<char>)
    requires
        forall|k: int| 0 <= k < s.len() ==> s[k].0@ != id,
    ensures
        directive_in(s, id) is None,
    decreases s.len(),
{
    if s.len() > 0 {
        lemma_directive_absent(s.drop_first(), id);
    }
}

proof fn lemma_directive_index(s: Seq<(String, RuleDirective)>, i: int)
    requires
        unique_ids(s),
        0 <= i < s.len(),
    ensures
        directive_in(s, s[i].0@) == Some(s[i].1),
    decreases s.len(),
{
    if i > 0 {
        assert(s[0].0@ != s[i].0@);
        lemma_directive_index(s.drop_first(), i - 1);
    }
}

proof fn lemma_directive_set(s: Seq<(String, RuleDirective)>, i: int, item: (String, RuleDirective))
    requires
        unique_ids(s),
        0 <= i < s.len(),
        s[i].0@ == item.0@,
    ensures
        unique_ids(s.update(i, item)),
        directive_in(s.update(i, item), item.0@) == Some(item.1),
        forall|other: Seq<char>| other != item.0@ ==> directive_in(s.update(i, item), other) == directive_in(s, other),
    decreases s.len(),
{
    let t = s.update(i, item);
    assert(unique_ids(t)) by {
        assert forall|a: int, b: int| 0 <= a < b < t.len() implies t[a].0@ != t[b].0@ by {
            assert(s[a].0@ != s[b].0@);
        }
    }
    lemma_directive_index(t, i);
    assert forall|other: Seq<char>| other != item.0@ implies directive_in(t, other) == directive_in(s, other) by {
        lemma_directive_other(s, i, item, other);
    }
}

proof fn lemma_directive_other(s: Seq<(String, RuleDirective)>, i: int, item: (String, RuleDirective), other: Seq<char>)
    requires
        0 <= i < s.len(),
        s[i].0@ == item.0@,
        other != item.0@,
    ensures
        directive_in(s.update(i, item), other) == directive_in(s, other),
    decreases s.len(),
{
    if s.len() > 0 && i > 0 {
        assert(s.update(i, item).drop_first() =~= s.drop_first().update(i - 1, item));
        lemma_directive_other(s.drop_first(), i - 1, item, other);
    } else if s.len() > 0 {
        assert(s.update(i, item).drop_first() =~= s.drop_first());
    }
}

proof fn lemma_directive_push(s: Seq<(String, RuleDirective)>, item: (String, RuleDirective))
    requires
        unique_ids(s),
        forall|k: int| 0 <= k < s.len() ==> s[k].0@ != item.0@,
    ensures
        unique_ids(s.push(item)),
        directive_in(s.push(item), item.0@) == Some(item.1),
        forall|other: Seq<char>| other != item.0@ ==> directive_in(s.push(item), other) == directive_in(s, other),
    decreases s.len(),
{
    let t = s.push(item);
    assert(unique_ids(t)) by {
        assert forall|a: int, b: int| 0 <= a < b < t.len() implies t[a].0@ != t[b].0@ by {
            if b < s.len() {
                assert(s[a].0@ != s[b].0@);
            }
        }
    }
    lemma_directive_index(t, s.len() as int);
    assert forall|other: Seq<char>| other != item.0@ implies directive_in(t, other) == directive_in(s, other) by {
        lemma_directive_push_other(s, item, other);
    }
}

proof fn lemma_directive_push_other(s: Seq<(String, RuleDirective)>, item: (String, RuleDirective), other: Seq<char>)
    requires
        other != item.0@,
    ensures
        directive_in(s.push(item), other) == directive_in(s, other),
    decreases s.len(),
{
    if s.len() > 0 {
        assert(s.push(item)[0] == s[0]);
        assert(s.push(item).drop_first() =~= s.drop_first().push(item));
        lemma_directive_push_other(s.drop_first(), item, other);
    } else {
        assert(s.push(item).drop_first() =~= s);
    }
}

} // verus!

verus! {

/// A TOML value, as the config logic reads it. Floats and datetimes keep
/// their text; nothing here computes with them.
#[derive(Debug)]
pub enum TomlValue {
    Str(String),
    Int(i64),
    Float(String),
    Bool(bool),
    Datetime(String),
    Array(Vec<TomlValue>),
    Table(TomlTable),
}

/// A TOML table: its keys in order, each once.
#[derive(Debug)]
pub struct TomlTable {
    pub entries: Vec<(String, TomlValue)>,
}

/// The value of `key` in a table's entries (the first with that key).
pub open spec fn toml_get(s: Seq<(String, TomlValue)>, key: Seq<char>) -> Option<TomlValue>
    decreases s.len(),
{
    if s.len() == 0 {
        None
    } else if s[0].0@ == key {
        Some(s[0].1)
    } else {
        toml_get(s.drop_first(), key)
    }
}

impl TomlTable {
    pub fn get(&self, key: &str) -> (r: Option<&TomlValue>)
        ensures
            match r {
                Some(v) => toml_get(self.entries@, key@) == Some(*v),
                None => toml_get(self.entries@, key@) is None,
            },
    {
        let mut i: usize = 0;
        assert(self.entries@.skip(0) =~= self.entries@);
        while i < self.entries.len()
            invariant
                i <= self.entries@.len(),
                toml_get(self.entries@, key@) == toml_get(self.entries@.skip(i as int), key@),
            decreases self.entries@.len() - i,
        {
            assert(self.entries@.skip(i as int).drop_first() =~= self.entries@.skip(i + 1));
            if str_eq(self.entries[i].0.as_str(), key) {
                return Some(&self.entries[i].1);
            }
            i = i + 1;
        }
        None
    }
}

} // verus!

verus! {

/// The configuration of a run (`omni-lint.toml`).
#[derive(Debug)]
pub struct Config {
    /// Path of the config file, if any.
    pub path: Option<String>,
    /// Directory containing the config file; relative paths resolve here.
    pub dir: String,
    pub rules: RuleDirectives,
    /// Restrict linting to these extensions (lowercase, no dot).
    pub extensions: Option<Vec<String>>,
    /// Glob ignore patterns relative to the config dir.
    pub ignore: Vec<String>,
    /// Baseline JSON path (relative to the config dir until resolved).
    pub baseline: Option<String>,
    /// Plugin id preferred for shared extensions.
    pub prefer: Option<String>,
    /// Per-plugin options, by plugin id, passed verbatim.
    pub plugins: Vec<(String, TomlTable)>,
}

pub open spec fn severity_error(s: Seq<char>, id: Seq<char>) -> Seq<char> {
    "unknown severity \""@ + s + "\" for rule \""@ + id + "\""@
}

pub open spec fn severity_of(s: Seq<char>, id: Seq<char>) -> Result<Option<Severity>, Seq<char>> {
    match Severity::parse_spec(s) {
        Some(x) => Ok(Some(x)),
        None => Err(severity_error(s, id)),
    }
}

/// The directive of `[rules."<id>"]`: `enabled = false` turns the rule off;
/// otherwise it is on, with the severity of `severity`, else of `enabled`
/// when that is a severity string.
pub open spec fn rule_directive(id: Seq<char>, v: TomlValue) -> Result<RuleDirective, Seq<char>> {
    match v {
        TomlValue::Table(t) => {
            let flag: Option<bool> = match toml_get(t.entries@, "enabled"@) {
                Some(TomlValue::Bool(b)) => Some(b),
                _ => None,
            };
            let sev1 = match toml_get(t.entries@, "enabled"@) {
                Some(TomlValue::Str(s)) => severity_of(s@, id),
                _ => Ok(None),
            };
            match sev1 {
                Err(e) => Err(e),
                Ok(sev) => {
                    let sev2 = match toml_get(t.entries@, "severity"@) {
                        None => Ok(sev),
                        Some(TomlValue::Str(s)) => severity_of(s@, id),
                        Some(_) => Err("severity for rule \""@ + id + "\" must be a string"@),
                    };
                    match sev2 {
                        Err(e) => Err(e),
                        Ok(sv) => Ok(
                            if flag == Some(false) {
                                RuleDirective::Off
                            } else {
                                RuleDirective::On(sv)
                            },
                        ),
                    }
                },
            }
        },
        _ => Err("[rules.\""@ + id + "\"] must be a table"@),
    }
}

/// The directives of the `[rules]` entries from `i`, added to `m`.
pub open spec fn rules_from(s: Seq<(String, TomlValue)>, i: int, m: Map<Seq<char>, RuleDirective>) -> Result<Map<Seq<char>, RuleDirective>, Seq<char>>
    decreases s.len() - i,
{
    if i < 0 || i >= s.len() {
        Ok(m)
    } else {
        match rule_directive(s[i].0@, s[i].1) {
            Err(e) => Err(e),
            Ok(d) => rules_from(s, i + 1, m.insert(s[i].0@, d)),
        }
    }
}

/// The `[rules]` table's directives (none without the table).
pub open spec fn rules_spec(raw: Seq<(String, TomlValue)>) -> Result<Map<Seq<char>, RuleDirective>, Seq<char>> {
    match toml_get(raw, "rules"@) {
        Some(TomlValue::Table(t)) => rules_from(t.entries@, 0, Map::empty()),
        _ => Ok(Map::empty()),
    }
}

/// A text without its leading dots.
pub open spec fn trim_dots(s: Seq<char>) -> Seq<char>
    decreases s.len(),
{
    if s.len() > 0 && s[0] == '.' {
        trim_dots(s.drop_first())
    } else {
        s
    }
}

/// The strings of an array, each mapped by `f`; an error when one is not a string.
pub open spec fn strings_of(items: Seq<TomlValue>, lower_no_dot: bool, err: Seq<char>) -> Result<Seq<Seq<char>>, Seq<char>>
    decreases items.len(),
{
    if items.len() == 0 {
        Ok(seq![])
    } else {
        match strings_of(items.drop_last(), lower_no_dot, err) {
            Err(e) => Err(e),
            Ok(before) => match items.last() {
                TomlValue::Str(s) => Ok(before.push(if lower_no_dot { lower_seq(trim_dots(s@)) } else { s@ })),
                _ => Err(err),
            },
        }
    }
}

/// `[targets] extensions`: lower-cased, without leading dots.
pub open spec fn extensions_spec(raw: Seq<(String, TomlValue)>) -> Result<Option<Seq<Seq<char>>>, Seq<char>> {
    match toml_get(raw, "targets"@) {
        Some(TomlValue::Table(t)) => match toml_get(t.entries@, "extensions"@) {
            Some(TomlValue::Array(a)) => match strings_of(a@, true, "[targets] extensions must be strings"@) {
                Ok(l) => Ok(Some(l)),
                Err(e) => Err(e),
            },
            _ => Ok(None),
        },
        _ => Ok(None),
    }
}

/// `ignore`: a string or an array of strings.
pub open spec fn ignore_spec(raw: Seq<(String, TomlValue)>) -> Result<Seq<Seq<char>>, Seq<char>> {
    match toml_get(raw, "ignore"@) {
        None => Ok(seq![]),
        Some(TomlValue::Str(s)) => Ok(seq![s@]),
        Some(TomlValue::Array(a)) => strings_of(a@, false, "ignore entries must be strings"@),
        Some(_) => Err("ignore must be a string or array of strings"@),
    }
}

/// A top-level string option.
pub open spec fn string_option(raw: Seq<(String, TomlValue)>, key: Seq<char>) -> Option<Seq<char>> {
    match toml_get(raw, key) {
        Some(TomlValue::Str(s)) => Some(s@),
        _ => None,
    }
}

/// The first `[plugins.<name>]` entry that is not a table, if any.
pub open spec fn plugins_error(s: Seq<(String, TomlValue)>) -> Option<Seq<char>>
    decreases s.len(),
{
    if s.len() == 0 {
        None
    } else if !(s[0].1 is Table) {
        Some("[plugins."@ + s[0].0@ + "] must be a table"@)
    } else {
        plugins_error(s.drop_first())
    }
}

pub open spec fn plugin_entries(raw: Seq<(String, TomlValue)>) -> Seq<(String, TomlValue)> {
    match toml_get(raw, "plugins"@) {
        Some(TomlValue::Table(t)) => t.entries@,
        _ => seq![],
    }
}

/// A rule table whose `severity` is a severity string, and whose `enabled`
/// is not `false` (nor a string that is no severity), turns the rule on with
/// exactly that severity, whatever else `enabled` holds.
pub proof fn law_severity_string_sets_the_directive(id: Seq<char>, t: TomlTable, sv: String, x: Severity)
    requires
        toml_get(t.entries@, "severity"@) == Some(TomlValue::Str(sv)),
        Severity::parse_spec(sv@) == Some(x),
        toml_get(t.entries@, "enabled"@) != Some(TomlValue::Bool(false)),
        forall|e: String| toml_get(t.entries@, "enabled"@) == Some(TomlValue::Str(e)) ==> (#[trigger] Severity::parse_spec(e@)) is Some,
    ensures
        rule_directive(id, TomlValue::Table(t)) == Ok::<RuleDirective, Seq<char>>(RuleDirective::On(Some(x))),
{
    match toml_get(t.entries@, "enabled"@) {
        Some(TomlValue::Str(e)) => {
            assert(Severity::parse_spec(e@) is Some);
        },
        _ => {},
    }
}

/// `enabled = false` turns a rule off whenever its table is accepted;
/// `enabled` set to a severity string, with no `severity` key, turns it on
/// at that severity; a table with neither key turns it on at its default.
pub proof fn law_enabled_flag_decides(id: Seq<char>, t: TomlTable)
    ensures
        toml_get(t.entries@, "enabled"@) == Some(TomlValue::Bool(false)) && rule_directive(id, TomlValue::Table(t)) is Ok
            ==> rule_directive(id, TomlValue::Table(t)) == Ok::<RuleDirective, Seq<char>>(RuleDirective::Off),
        forall|e: String|
            toml_get(t.entries@, "enabled"@) == Some(TomlValue::Str(e)) && toml_get(t.entries@, "severity"@) is None
                && (#[trigger] Severity::parse_spec(e@)) is Some ==> rule_directive(id, TomlValue::Table(t)) == Ok::<
                RuleDirective,
                Seq<char>,
            >(RuleDirective::On(Severity::parse_spec(e@))),
        toml_get(t.entries@, "enabled"@) is None && toml_get(t.entries@, "severity"@) is None ==> rule_directive(
            id,
            TomlValue::Table(t),
        ) == Ok::<RuleDirective, Seq<char>>(RuleDirective::On(None)),
        toml_get(t.entries@, "enabled"@) == Some(TomlValue::Bool(true)) && toml_get(t.entries@, "severity"@) is None
            ==> rule_directive(id, TomlValue::Table(t)) == Ok::<RuleDirective, Seq<char>>(RuleDirective::On(None)),
{
}

/// Keys that do not come again keep the value they had.
proof fn lemma_rules_from_keeps(s: Seq<(String, TomlValue)>, p: int, m: Map<Seq<char>, RuleDirective>, key: Seq<char>)
    requires
        0 <= p,
        forall|k: int| p <= k < s.len() ==> (#[trigger] s[k]).0@ != key,
        rules_from(s, p, m) is Ok,
    ensures
        rules_from(s, p, m)->Ok_0.contains_key(key) == m.contains_key(key),
        m.contains_key(key) ==> rules_from(s, p, m)->Ok_0[key] == m[key],
    decreases s.len() - p,
{
    if p < s.len() {
        let d = rule_directive(s[p].0@, s[p].1)->Ok_0;
        assert(s[p].0@ != key);
        lemma_rules_from_keeps(s, p + 1, m.insert(s[p].0@, d), key);
    }
}

/// The directive recorded for the key at `i`, when no later entry repeats it.
proof fn lemma_rules_from_at(s: Seq<(String, TomlValue)>, p: int, m: Map<Seq<char>, RuleDirective>, i: int)
    requires
        0 <= p <= i < s.len(),
        forall|k: int| i < k < s.len() ==> (#[trigger] s[k]).0@ != s[i].0@,
        rules_from(s, p, m) is Ok,
    ensures
        rule_directive(s[i].0@, s[i].1) is Ok,
        rules_from(s, p, m)->Ok_0.contains_key(s[i].0@),
        rules_from(s, p, m)->Ok_0[s[i].0@] == rule_directive(s[i].0@, s[i].1)->Ok_0,
    decreases s.len() - p,
{
    let d = rule_directive(s[p].0@, s[p].1)->Ok_0;
    if p == i {
        lemma_rules_from_keeps(s, p + 1, m.insert(s[p].0@, d), s[i].0@);
    } else {
        lemma_rules_from_at(s, p + 1, m.insert(s[p].0@, d), i);
    }
}

/// A configuration read from a table whose `[rules."<id>"]` sets `severity`
/// to a severity string (and `enabled` not to `false`) has that rule on, at
/// exactly that severity.
pub proof fn law_config_keeps_severity_override(
    raw: Seq<(String, TomlValue)>,
    c: Config,
    rt: TomlTable,
    i: int,
    t: TomlTable,
    sv: String,
    x: Severity,
)
    requires
        config_error(raw) is None,
        config_of(raw, c),
        toml_get(raw, "rules"@) == Some(TomlValue::Table(rt)),
        0 <= i < rt.entries@.len(),
        forall|k: int| i < k < rt.entries@.len() ==> (#[trigger] rt.entries@[k]).0@ != rt.entries@[i].0@,
        rt.entries@[i].1 == TomlValue::Table(t),
        toml_get(t.entries@, "severity"@) == Some(TomlValue::Str(sv)),
        Severity::parse_spec(sv@) == Some(x),
        toml_get(t.entries@, "enabled"@) != Some(TomlValue::Bool(false)),
        forall|e: String| toml_get(t.entries@, "enabled"@) == Some(TomlValue::Str(e)) ==> (#[trigger] Severity::parse_spec(e@)) is Some,
    ensures
        c.rules.spec_get(rt.entries@[i].0@) == Some(RuleDirective::On(Some(x))),
{
    lemma_rules_from_at(rt.entries@, 0, Map::empty(), i);
    law_severity_string_sets_the_directive(rt.entries@[i].0@, t, sv, x);
    assert(c.rules.spec_get(rt.entries@[i].0@) == Some(rules_spec(raw)->Ok_0[rt.entries@[i].0@]));
}

/// The first error of a config table, in the order the sections are read:
/// rules, targets, ignore, plugins.
pub open spec fn config_error(raw: Seq<(String, TomlValue)>) -> Option<Seq<char>> {
    if rules_spec(raw) is Err {
        Some(rules_spec(raw)->Err_0)
    } else if extensions_spec(raw) is Err {
        Some(extensions_spec(raw)->Err_0)
    } else if ignore_spec(raw) is Err {
        Some(ignore_spec(raw)->Err_0)
    } else {
        plugins_error(plugin_entries(raw))
    }
}

pub open spec fn opt_names(o: Option<Vec<String>>) -> Option<Seq<Seq<char>>> {
    match o {
        Some(v) => Some(crate::text::views(v@)),
        None => None,
    }
}

pub open spec fn opt_str(o: Option<String>) -> Option<Seq<char>> {
    match o {
        Some(s) => Some(s@),
        None => None,
    }
}

/// `c` is the configuration the table `raw` describes.
pub open spec fn config_of(raw: Seq<(String, TomlValue)>, c: Config) -> bool {
    &&& c.path is None
    &&& c.dir@ == Seq::<char>::empty()
    &&& c.rules.wf()
    &&& forall|id: Seq<char>|
        #[trigger] c.rules.spec_get(id) == if rules_spec(raw)->Ok_0.contains_key(id) {
            Some(rules_spec(raw)->Ok_0[id])
        } else {
            None
        }
    &&& opt_names(c.extensions) == extensions_spec(raw)->Ok_0
    &&& crate::text::views(c.ignore@) == ignore_spec(raw)->Ok_0
    &&& opt_str(c.baseline) == string_option(raw, "baseline"@)
    &&& opt_str(c.prefer) == string_option(raw, "prefer"@)
    &&& c.plugins@.len() == plugin_entries(raw).len()
    &&& forall|k: int|
        0 <= k < c.plugins@.len() ==> (#[trigger] c.plugins@[k]).0@ == plugin_entries(raw)[k].0@
            && plugin_entries(raw)[k].1 == TomlValue::Table(c.plugins@[k].1)
}

} // verus!

verus! {

fn severity_from(s: &str, id: &str) -> (r: Result<Option<Severity>, String>)
    ensures
        match r {
            Ok(x) => severity_of(s@, id@) == Ok::<Option<Severity>, Seq<char>>(x),
            Err(e) => severity_of(s@, id@) == Err::<Option<Severity>, Seq<char>>(e@),
        },
{
    match Severity::parse(s) {
        Some(x) => Ok(Some(x)),
        None => {
            let mut m = string_of("unknown severity \"");
            push_str(&mut m, s);
            push_str(&mut m, "\" for rule \"");
            push_str(&mut m, id);
            push_str(&mut m, "\"");
            assert(m@ =~= severity_error(s@, id@));
            Err(m)
        },
    }
}

fn rule_directive_of(id: &str, v: &TomlValue) -> (r: Result<RuleDirective, String>)
    ensures
        match r {
            Ok(d) => rule_directive(id@, *v) == Ok::<RuleDirective, Seq<char>>(d),
            Err(e) => rule_directive(id@, *v) == Err::<RuleDirective, Seq<char>>(e@),
        },
{
    match v {
        TomlValue::Table(t) => {
            let mut flag: Option<bool> = None;
            let mut sev: Option<Severity> = None;
            match t.get("enabled") {
                Some(TomlValue::Bool(b)) => {
                    flag = Some(*b);
                },
                Some(TomlValue::Str(s)) => {
                    match severity_from(s.as_str(), id) {
                        Ok(x) => {
                            sev = x;
                        },
                        Err(e) => {
                            return Err(e);
                        },
                    }
                },
                _ => {},
            }
            match t.get("severity") {
                None => {},
                Some(TomlValue::Str(s)) => {
                    match severity_from(s.as_str(), id) {
                        Ok(x) => {
                            sev = x;
                        },
                        Err(e) => {
                            return Err(e);
                        },
                    }
                },
                Some(_) => {
                    let mut m = string_of("severity for rule \"");
                    push_str(&mut m, id);
                    push_str(&mut m, "\" must be a string");
                    assert(m@ =~= "severity for rule \""@ + id@ + "\" must be a string"@);
                    return Err(m);
                },
            }
            let d = match flag {
                Some(false) => RuleDirective::Off,
                _ => RuleDirective::On(sev),
            };
            Ok(d)
        },
        _ => {
            let mut m = string_of("[rules.\"");
            push_str(&mut m, id);
            push_str(&mut m, "\"] must be a table");
            assert(m@ =~= "[rules.\""@ + id@ + "\"] must be a table"@);
            Err(m)
        },
    }
}

/// A map with the same contents as the directives.
pub open spec fn same_map(d: RuleDirectives, m: Map<Seq<char>, RuleDirective>) -> bool {
    forall|id: Seq<char>| #[trigger] d.spec_get(id) == if m.contains_key(id) { Some(m[id]) } else { None }
}

fn rules_of(raw: &TomlTable) -> (r: Result<RuleDirectives, String>)
    ensures
        match r {
            Ok(d) => d.wf() && rules_spec(raw.entries@) is Ok && same_map(d, rules_spec(raw.entries@)->Ok_0),
            Err(e) => rules_spec(raw.entries@) == Err::<Map<Seq<char>, RuleDirective>, Seq<char>>(e@),
        },
{
    let mut out = RuleDirectives::new();
    let ghost empty = Map::<Seq<char>, RuleDirective>::empty();
    assert(same_map(out, empty));
    match raw.get("rules") {
        Some(TomlValue::Table(t)) => {
            let mut i: usize = 0;
            let ghost mut m = empty;
            while i < t.entries.len()
                invariant
                    i <= t.entries@.len(),
                    out.wf(),
                    same_map(out, m),
                    rules_spec(raw.entries@) == rules_from(t.entries@, 0, empty),
                    rules_from(t.entries@, 0, empty) == rules_from(t.entries@, i as int, m),
                decreases t.entries@.len() - i,
            {
                let id = t.entries[i].0.as_str();
                match rule_directive_of(id, &t.entries[i].1) {
                    Err(e) => {
                        return Err(e);
                    },
                    Ok(d) => {
                        let ghost m2 = m.insert(id@, d);
                        out.insert(t.entries[i].0.clone(), d);
                        proof {
                            assert forall|q: Seq<char>| #[trigger] out.spec_get(q) == if m2.contains_key(q) { Some(m2[q]) } else { None } by {
                                if q != id@ {
                                    assert(m2.contains_key(q) == m.contains_key(q));
                                }
                            }
                            m = m2;
                        }
                    },
                }
                i = i + 1;
            }
            Ok(out)
        },
        _ => Ok(out),
    }
}

fn trimmed_lower(s: &str) -> (r: String)
    ensures
        r@ == lower_seq(trim_dots(s@)),
{
    let cs = chars_of(s);
    let mut i: usize = 0;
    assert(cs@.subrange(0, cs@.len() as int) =~= s@);
    while i < cs.len() && cs[i] == '.'
        invariant
            i <= cs@.len(),
            cs@ == s@,
            trim_dots(s@) == trim_dots(cs@.subrange(i as int, cs@.len() as int)),
        decreases cs@.len() - i,
    {
        assert(cs@.subrange(i as int, cs@.len() as int).drop_first() =~= cs@.subrange(i + 1, cs@.len() as int));
        i = i + 1;
    }
    lower_string(&cs, i, cs.len())
}

fn strings_in(items: &Vec<TomlValue>, lower_no_dot: bool, err: &str) -> (r: Result<Vec<String>, String>)
    ensures
        match r {
            Ok(v) => strings_of(items@, lower_no_dot, err@) == Ok::<Seq<Seq<char>>, Seq<char>>(crate::text::views(v@)),
            Err(e) => strings_of(items@, lower_no_dot, err@) == Err::<Seq<Seq<char>>, Seq<char>>(e@),
        },
{
    let mut out: Vec<String> = Vec::new();
    let mut i: usize = 0;
    assert(crate::text::views(out@) =~= seq![]);
    while i < items.len()
        invariant
            i <= items@.len(),
            strings_of(items@.subrange(0, i as int), lower_no_dot, err@) == Ok::<Seq<Seq<char>>, Seq<char>>(
                crate::text::views(out@),
            ),
        decreases items@.len() - i,
    {
        assert(items@.subrange(0, i + 1).drop_last() =~= items@.subrange(0, i as int));
        match &items[i] {
            TomlValue::Str(s) => {
                let x = if lower_no_dot { trimmed_lower(s.as_str()) } else { s.clone() };
                let ghost before = crate::text::views(out@);
                out.push(x);
                assert(crate::text::views(out@) =~= before.push(x@));
            },
            _ => {
                proof {
                    lemma_strings_err(items@, i as int, lower_no_dot, err@);
                }
                return Err(string_of(err));
            },
        }
        i = i + 1;
    }
    assert(items@.subrange(0, items@.len() as int) =~= items@);
    Ok(out)
}

/// An error at `i` stays the error of the whole array.
proof fn lemma_strings_err(items: Seq<TomlValue>, i: int, f: bool, err: Seq<char>)
    requires
        0 <= i < items.len(),
        strings_of(items.subrange(0, i), f, err) is Ok,
        !(items[i] is Str),
    ensures
        strings_of(items, f, err) == Err::<Seq<Seq<char>>, Seq<char>>(err),
    decreases items.len() - i,
{
    let n = items.len();
    if i + 1 == n {
        assert(items.drop_last() =~= items.subrange(0, i));
        lemma_strings_err_step(items, f, err);
    } else {
        assert(items.subrange(0, i + 1).drop_last() =~= items.subrange(0, i));
        lemma_strings_err_step(items.subrange(0, i + 1), f, err);
        lemma_strings_extend_err(items, i + 1, f, err);
    }
}

proof fn lemma_strings_err_step(items: Seq<TomlValue>, f: bool, err: Seq<char>)
    requires
        items.len() > 0,
        strings_of(items.drop_last(), f, err) is Ok,
        !(items.last() is Str),
    ensures
        strings_of(items, f, err) == Err::<Seq<Seq<char>>, Seq<char>>(err),
{
}

/// Once a prefix fails, every longer prefix fails with the same error.
proof fn lemma_strings_extend_err(items: Seq<TomlValue>, j: int, f: bool, err: Seq<char>)
    requires
        0 < j <= items.len(),
        strings_of(items.subrange(0, j), f, err) == Err::<Seq<Seq<char>>, Seq<char>>(err),
    ensures
        strings_of(items, f, err) == Err::<Seq<Seq<char>>, Seq<char>>(err),
    decreases items.len() - j,
{
    if j < items.len() {
        assert(items.subrange(0, j + 1).drop_last() =~= items.subrange(0, j));
        lemma_strings_extend_err(items, j + 1, f, err);
    } else {
        assert(items.subrange(0, j) =~= items);
    }
}

} // verus!

verus! {

fn extensions_of(raw: &TomlTable) -> (r: Result<Option<Vec<String>>, String>)
    ensures
        match r {
            Ok(x) => extensions_spec(raw.entries@) == Ok::<Option<Seq<Seq<char>>>, Seq<char>>(opt_names(x)),
            Err(e) => extensions_spec(raw.entries@) == Err::<Option<Seq<Seq<char>>>, Seq<char>>(e@),
        },
{
    match raw.get("targets") {
        Some(TomlValue::Table(t)) => match t.get("extensions") {
            Some(TomlValue::Array(a)) => match strings_in(a, true, "[targets] extensions must be strings") {
                Ok(l) => Ok(Some(l)),
                Err(e) => Err(e),
            },
            _ => Ok(None),
        },
        _ => Ok(None),
    }
}

fn ignore_of(raw: &TomlTable) -> (r: Result<Vec<String>, String>)
    ensures
        match r {
            Ok(x) => ignore_spec(raw.entries@) == Ok::<Seq<Seq<char>>, Seq<char>>(crate::text::views(x@)),
            Err(e) => ignore_spec(raw.entries@) == Err::<Seq<Seq<char>>, Seq<char>>(e@),
        },
{
    match raw.get("ignore") {
        None => {
            let v: Vec<String> = Vec::new();
            assert(crate::text::views(v@) =~= seq![]);
            Ok(v)
        },
        Some(TomlValue::Str(s)) => {
            let mut v: Vec<String> = Vec::new();
            v.push(s.clone());
            assert(crate::text::views(v@) =~= seq![s@]);
            Ok(v)
        },
        Some(TomlValue::Array(a)) => strings_in(a, false, "ignore entries must be strings"),
        Some(_) => Err(string_of("ignore must be a string or array of strings")),
    }
}

fn string_option_of(raw: &TomlTable, key: &str) -> (r: Option<String>)
    ensures
        opt_str(r) == string_option(raw.entries@, key@),
{
    match raw.get(key) {
        Some(TomlValue::Str(s)) => Some(s.clone()),
        _ => None,
    }
}

/// Take the value of `key` out of a table's entries (the first with that key).
fn take_value(entries: Vec<(String, TomlValue)>, key: &str) -> (r: Option<TomlValue>)
    ensures
        r == toml_get(entries@, key@),
{
    let mut rest = entries;
    let ghost all = rest@;
    let ghost mut k: int = 0;
    assert(all.skip(0) =~= all);
    while rest.len() > 0
        invariant
            all == entries@,
            0 <= k <= all.len(),
            rest@ == all.skip(k),
            toml_get(all, key@) == toml_get(all.skip(k), key@),
        decreases rest@.len(),
    {
        let item = rest.remove(0);
        proof {
            assert(all.skip(k).drop_first() =~= all.skip(k + 1));
            assert(item == all.skip(k)[0]);
        }
        if str_eq(item.0.as_str(), key) {
            assert(toml_get(all.skip(k), key@) == Some(item.1));
            return Some(item.1);
        }
        proof {
            k = k + 1;
        }
    }
    None
}

/// The tables of `[plugins]`, by name; an error for the first entry that is
/// not a table.
fn plugin_tables(entries: Vec<(String, TomlValue)>) -> (r: Result<Vec<(String, TomlTable)>, String>)
    ensures
        match r {
            Ok(p) => plugins_error(entries@) is None && p@.len() == entries@.len() && forall|k: int|
                0 <= k < p@.len() ==> (#[trigger] p@[k]).0@ == entries@[k].0@ && entries@[k].1 == TomlValue::Table(p@[k].1),
            Err(e) => plugins_error(entries@) == Some(e@),
        },
{
    let mut plugins: Vec<(String, TomlTable)> = Vec::new();
    let mut rest = entries;
    let ghost all = rest@;
    while rest.len() > 0
        invariant
            all == entries@,
            rest@.len() <= all.len(),
            rest@ == all.subrange(all.len() - rest@.len(), all.len() as int),
            plugins@.len() == all.len() - rest@.len(),
            plugins_error(all) == plugins_error(rest@),
            forall|k: int|
                0 <= k < plugins@.len() ==> (#[trigger] plugins@[k]).0@ == all[k].0@ && all[k].1 == TomlValue::Table(
                    plugins@[k].1,
                ),
        decreases rest@.len(),
    {
        let ghost k = all.len() - rest@.len();
        let ghost before = rest@;
        let item = rest.remove(0);
        proof {
            assert(rest@ =~= all.subrange(k + 1, all.len() as int));
            assert(before.drop_first() =~= rest@);
            assert(all[k] == item);
        }
        let (name, value) = item;
        match value {
            TomlValue::Table(t) => {
                plugins.push((name, t));
            },
            _ => {
                let mut m = string_of("[plugins.");
                push_str(&mut m, name.as_str());
                push_str(&mut m, "] must be a table");
                assert(m@ =~= "[plugins."@ + name@ + "] must be a table"@);
                return Err(m);
            },
        }
    }
    Ok(plugins)
}

/// The entries of `text` read as a TOML document the way
/// `toml::from_str::<toml::Table>` reads it (each value converted variant for
/// variant, keys in the table's order), or `None` when `text` is no TOML
/// document.
pub uninterp spec fn toml_document(text: Seq<char>) -> Option<Seq<(String, TomlValue)>>;

/// The message of the error `toml::from_str` gives for a text that is no
/// TOML document.
pub uninterp spec fn toml_error_text(text: Seq<char>) -> Seq<char>;

#[verifier::external_type_specification]
#[verifier::external_body]
pub struct ExTomlValue(toml::Value);

/// A `toml::Value` as the library's `TomlValue`, variant for variant (a
/// float and a datetime as the text their `to_string` gives). Nothing is
/// stated of it: what it yields is part of `toml_document`.
#[verifier::external_body]
fn toml_value_of(v: &toml::Value) -> TomlValue {
    match v {
        toml::Value::String(s) => TomlValue::Str(s.clone()),
        toml::Value::Integer(i) => TomlValue::Int(*i),
        toml::Value::Float(f) => TomlValue::Float(f.to_string()),
        toml::Value::Boolean(b) => TomlValue::Bool(*b),
        toml::Value::Datetime(d) => TomlValue::Datetime(d.to_string()),
        toml::Value::Array(a) => TomlValue::Array(a.iter().map(toml_value_of).collect()),
        toml::Value::Table(t) => TomlValue::Table(TomlTable { entries: t.iter().map(|(k, x)| (k.clone(), toml_value_of(x))).collect() }),
    }
}

/// `toml::from_str::<toml::Table>`. Stated: on success the table's entries
/// are `toml_document` of the text; on failure `toml_document` is `None` and
/// the error's message is `toml_error_text` of the text. The TOML grammar is
/// left to the names.
#[verifier::external_body]
pub(crate) fn parse_toml(text: &str) -> (r: Result<TomlTable, String>)
    ensures
        match r {
            Ok(t) => toml_document(text@) == Some(t.entries@),
            Err(e) => toml_document(text@) is None && e@ == toml_error_text(text@),
        },
{
    match toml::from_str::<toml::Table>(text) {
        Ok(t) => Ok(TomlTable { entries: t.iter().map(|(k, v)| (k.clone(), toml_value_of(v))).collect() }),
        Err(e) => Err(e.to_string()),
    }
}

impl Config {
    /// Read a configuration from the text of `omni-lint.toml`: a text that
    /// is no TOML document is reported as `parse omni-lint.toml: <error>`;
    /// otherwise as `from_table` reads the document's table.
    pub fn from_str(text: &str) -> (r: Result<Config, String>)
        ensures
            match toml_document(text@) {
                None => (r matches Err(e) && e@ == "parse omni-lint.toml: "@ + toml_error_text(text@)),
                Some(s) => match r {
                    Ok(c) => config_error(s) is None && config_of(s, c),
                    Err(e) => config_error(s) == Some(e@),
                },
            },
    {
        match parse_toml(text) {
            Ok(t) => Config::from_table(t),
            Err(e) => {
                let mut m = string_of("parse omni-lint.toml: ");
                push_str(&mut m, e.as_str());
                Err(m)
            },
        }
    }

    /// Read a configuration from the table of `omni-lint.toml`. Errors come
    /// from the first bad section, read in this order: rules, targets,
    /// ignore, plugins.
    pub fn from_table(raw: TomlTable) -> (r: Result<Config, String>)
        ensures
            match r {
                Ok(c) => config_error(raw.entries@) is None && config_of(raw.entries@, c),
                Err(e) => config_error(raw.entries@) == Some(e@),
            },
    {
        let ghost rv = raw.entries@;
        let rules = match rules_of(&raw) {
            Ok(d) => d,
            Err(e) => return Err(e),
        };
        let extensions = match extensions_of(&raw) {
            Ok(x) => x,
            Err(e) => return Err(e),
        };
        let ignore = match ignore_of(&raw) {
            Ok(x) => x,
            Err(e) => return Err(e),
        };
        let baseline = string_option_of(&raw, "baseline");
        let prefer = string_option_of(&raw, "prefer");
        let plugins = match take_value(raw.entries, "plugins") {
            Some(TomlValue::Table(pt)) => match plugin_tables(pt.entries) {
                Ok(p) => p,
                Err(e) => return Err(e),
            },
            _ => {
                let v: Vec<(String, TomlTable)> = Vec::new();
                v
            },
        };
        Ok(Config {
            path: None,
            dir: String::new(),
            rules,
            extensions,
            ignore,
            baseline,
            prefer,
            plugins,
        })
    }
}

} // verus!

verus! {

/// What the globset matcher says of `path` for `patterns`: the set built
/// from the patterns that compile as globs (with `*` and `?` not matching
/// `/`), asked whether any matches; `None` when the set fails to build.
pub uninterp spec fn glob_set_match(patterns: Seq<Seq<char>>, path: Seq<char>) -> Option<bool>;

/// Patterns and a path without `\`: the inputs on which globset reads the
/// same on every platform (elsewhere than on Unix a `\` is a separator and
/// is rewritten to `/`; on Unix it escapes the next character).
pub open spec fn slash_separated(patterns: Seq<Seq<char>>, path: Seq<char>) -> bool {
    &&& !path.contains('\\')
    &&& forall|k: int| 0 <= k < patterns.len() ==> !(#[trigger] patterns[k]).contains('\\')
}

/// `globset::GlobSetBuilder` over `GlobBuilder::new(p).literal_separator(true).build()`
/// for each pattern (patterns that do not compile are left out), then
/// `GlobSetBuilder::build` and `GlobSet::is_match`. Stated: on patterns and a
/// path without `\`, the result is `glob_set_match` of them; the glob
/// language is left to the name. Nothing is stated of inputs with a `\`,
/// which globset reads differently by platform.
#[verifier::external_body]
fn ignore_set_match(patterns: &Vec<String>, path: &str) -> (r: Option<bool>)
    ensures
        slash_separated(crate::text::views(patterns@), path@) ==> r == glob_set_match(crate::text::views(patterns@), path@),
{
    let mut builder = globset::GlobSetBuilder::new();
    for p in patterns {
        if let Ok(g) = globset::GlobBuilder::new(p).literal_separator(true).build() {
            builder.add(g);
        }
    }
    builder.build().ok().map(|set| set.is_match(path))
}

/// An ignore pattern as matched: a pattern without `*` means the directory
/// tree (`dir` becomes `dir/**`, `dir/` becomes `dir/**`), and every pattern
/// is anchored anywhere below the config dir (`**/` in front).
pub open spec fn ignore_glob(p: Seq<char>) -> Seq<char> {
    let q = if !p.contains('*') && !(p.len() >= 2 && p.subrange(p.len() - 2, p.len() as int) == "**"@) {
        if p.len() > 0 && p.last() == '/' {
            p + "**"@
        } else {
            p + "/**"@
        }
    } else {
        p
    };
    "**/"@ + q
}

fn ignore_glob_of(p: &str) -> (r: String)
    ensures
        r@ == ignore_glob(p@),
{
    let cs = chars_of(p);
    let mut star = false;
    let mut i: usize = 0;
    while i < cs.len()
        invariant
            i <= cs@.len(),
            cs@ == p@,
            star == exists|k: int| 0 <= k < i && cs@[k] == '*',
        decreases cs@.len() - i,
    {
        if cs[i] == '*' {
            star = true;
        }
        i = i + 1;
    }
    proof {
        reveal_strlit("**");
        if p@.contains('*') {
            let k = choose|k: int| 0 <= k < p@.len() && p@[k] == '*';
            assert(cs@[k] == '*');
        }
    }
    let n = cs.len();
    let ends_stars = n >= 2 && cs[n - 2] == '*' && cs[n - 1] == '*';
    proof {
        if n >= 2 {
            assert(ends_stars == (p@.subrange(n - 2, n as int) == "**"@)) by {
                if ends_stars {
                    assert(p@.subrange(n - 2, n as int) =~= "**"@);
                }
                if p@.subrange(n - 2, n as int) == "**"@ {
                    assert(p@.subrange(n - 2, n as int)[0] == '*');
                    assert(p@.subrange(n - 2, n as int)[1] == '*');
                }
            }
        }
    }
    let mut r = string_of("**/");
    push_str(&mut r, p);
    if !star && !ends_stars {
        if n > 0 && cs[n - 1] == '/' {
            push_str(&mut r, "**");
        } else {
            push_str(&mut r, "/**");
        }
    }
    assert(r@ =~= ignore_glob(p@));
    r
}

pub open spec fn ignore_globs(ignore: Seq<Seq<char>>) -> Seq<Seq<char>> {
    ignore.map_values(|p: Seq<char>| ignore_glob(p))
}

/// Anchoring and widening a pattern adds no `\`.
proof fn lemma_ignore_globs_slash_separated(ignore: Seq<Seq<char>>, path: Seq<char>)
    requires
        slash_separated(ignore, path),
    ensures
        slash_separated(ignore_globs(ignore), path),
{
    reveal_strlit("**/");
    reveal_strlit("**");
    reveal_strlit("/**");
    let gs = ignore_globs(ignore);
    assert forall|k: int| 0 <= k < gs.len() implies !(#[trigger] gs[k]).contains('\\') by {
        let p = ignore[k];
        assert(!p.contains('\\'));
        let g = ignore_glob(p);
        assert(gs[k] == g);
        if g.contains('\\') {
            let i = choose|i: int| 0 <= i < g.len() && g[i] == '\\';
            let q = g.subrange(3, g.len() as int);
            if i >= 3 + p.len() {
                assert(q[i - 3] == g[i]);
            } else if i >= 3 {
                assert(g[i] == p[i - 3]);
            }
        }
    }
}

impl Config {
    /// Whether the `ignore` patterns (relative to the config dir) match
    /// `path`: never with no patterns, and not when the matcher fails to build.
    /// The match is stated for patterns and paths written with `/` alone.
    pub fn is_ignored(&self, path: &str) -> (r: bool)
        ensures
            self.ignore@.len() == 0 ==> !r,
            slash_separated(crate::text::views(self.ignore@), path@) ==> r == (self.ignore@.len() > 0
                && glob_set_match(ignore_globs(crate::text::views(self.ignore@)), path@) == Some(true)),
    {
        proof {
            if slash_separated(crate::text::views(self.ignore@), path@) {
                lemma_ignore_globs_slash_separated(crate::text::views(self.ignore@), path@);
            }
        }
        if self.ignore.len() == 0 {
            return false;
        }
        let mut globs: Vec<String> = Vec::new();
        let mut i: usize = 0;
        while i < self.ignore.len()
            invariant
                i <= self.ignore@.len(),
                crate::text::views(globs@) == ignore_globs(crate::text::views(self.ignore@)).subrange(0, i as int),
            decreases self.ignore@.len() - i,
        {
            let g = ignore_glob_of(self.ignore[i].as_str());
            let ghost before = crate::text::views(globs@);
            let ghost gv = g@;
            globs.push(g);
            assert(crate::text::views(globs@) =~= before.push(gv));
            assert(ignore_globs(crate::text::views(self.ignore@))[i as int] == gv);
            assert(crate::text::views(globs@) =~= ignore_globs(crate::text::views(self.ignore@)).subrange(0, i + 1));
            i = i + 1;
        }
        assert(ignore_globs(crate::text::views(self.ignore@)).subrange(0, i as int) =~= ignore_globs(
            crate::text::views(self.ignore@),
        ));
        match ignore_set_match(&globs, path) {
            Some(b) => b,
            None => false,
        }
    }
}

} // verus!
