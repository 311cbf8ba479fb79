//! Registry decisions: which rule ids are accepted into the ruleset, which
//! plugin parses an extension, how rules group by namespace.

use crate::plugin::{Capability, CapabilityScope};
use crate::text::{chars_of, push_str, str_eq, string_from_chars, string_of};
use vstd::prelude::*;

verus! {

/// What `{:?}` makes of a string: the string quoted, with special
/// characters escaped.
pub uninterp spec fn debug_quoted(s: Seq<char>) -> Seq<char>;

/// `format!("{:?}", s)` for a string. Stated: the result is `debug_quoted`
/// of the string; the escaping rules are left to the name.
#[verifier::external_body]
pub(crate) fn debug_str(s: &str) -> (r: String)
    ensures
        r@ == debug_quoted(s@),
{
    format!("{:?}", s)
}

/// A rule id is `namespace/rule-name`: non-empty, with a `/`.
pub open spec fn valid_rule_id(id: Seq<char>) -> bool {
    id.len() > 0 && id.contains('/')
}

pub open spec fn invalid_id_message(id: Seq<char>) -> Seq<char> {
    "rule id "@ + debug_quoted(id) + " is invalid: use `namespace/rule-name` (lowercase kebab)"@
}

pub open spec fn duplicate_id_message(id: Seq<char>) -> Seq<char> {
    "rule `"@ + id + "` is already registered; two rules from different origins cannot share an id"@
}

/// Whether `id` may join a ruleset that already holds `registered`: it must
/// be well formed, and ids are unique across every origin (a clash is a
/// load error, never silent shadowing).
pub fn check_rule_id(id: &str, registered: &Vec<String>) -> (r: Result<(), String>)
    ensures
        !valid_rule_id(id@) ==> r is Err && r->Err_0@ == invalid_id_message(id@),
        valid_rule_id(id@) && (exists|k: int| 0 <= k < registered@.len() && registered@[k]@ == id@) ==> (
        r is Err && r->Err_0@ == duplicate_id_message(id@)),
        valid_rule_id(id@) && !(exists|k: int| 0 <= k < registered@.len() && registered@[k]@ == id@) ==> r
            is Ok,
{
    let cs = chars_of(id);
    let mut has_slash = false;
    let mut i: usize = 0;
    while i < cs.len()
        invariant
            i <= cs@.len(),
            cs@ == id@,
            has_slash == exists|k: int| 0 <= k < i && cs@[k] == '/',
        decreases cs@.len() - i,
    {
        if cs[i] == '/' {
            has_slash = true;
        }
        i = i + 1;
    }
    if cs.len() == 0 || !has_slash {
        proof {
            if cs@.len() > 0 && id@.contains('/') {
                let k = choose|k: int| 0 <= k < id@.len() && id@[k] == '/';
                assert(cs@[k] == '/');
            }
        }
        let mut msg = string_of("rule id ");
        let q = debug_str(id);
        push_str(&mut msg, q.as_str());
        push_str(&mut msg, " is invalid: use `namespace/rule-name` (lowercase kebab)");
        assert(msg@ =~= invalid_id_message(id@));
        return Err(msg);
    }
    proof {
        let k = choose|k: int| 0 <= k < i && cs@[k] == '/';
        assert(id@[k] == '/');
        assert(id@.contains('/'));
    }
    let mut j: usize = 0;
    while j < registered.len()
        invariant
            j <= registered@.len(),
            valid_rule_id(id@),
            forall|k: int| 0 <= k < j ==> registered@[k]@ != id@,
        decreases registered@.len() - j,
    {
        if str_eq(registered[j].as_str(), id) {
            let mut msg = string_of("rule `");
            push_str(&mut msg, id);
            push_str(&mut msg, "` is already registered; two rules from different origins cannot share an id");
            assert(msg@ =~= duplicate_id_message(id@));
            return Err(msg);
        }
        j = j + 1;
    }
    Ok(())
}

/// The namespace of a rule id: the part before its first `/`, or the whole
/// id when there is none.
pub open spec fn namespace_of(id: Seq<char>) -> Seq<char> {
    if exists|k: int| 0 <= k < id.len() && id[k] == '/' {
        id.subrange(0, choose|k: int| 0 <= k < id.len() && id[k] == '/' && forall|j: int| 0 <= j < k ==> id[j] != '/')
    } else {
        id
    }
}

pub fn rule_namespace(id: &str) -> (r: String)
    ensures
        r@ == namespace_of(id@),
{
    let cs = chars_of(id);
    let mut i: usize = 0;
    while i < cs.len() && cs[i] != '/'
        invariant
            i <= cs@.len(),
            cs@ == id@,
            forall|j: int| 0 <= j < i ==> cs@[j] != '/',
        decreases cs@.len() - i,
    {
        i = i + 1;
    }
    proof {
        if i < cs@.len() {
            let k = choose|k: int| 0 <= k < id@.len() && id@[k] == '/' && forall|j: int| 0 <= j < k ==> id@[j] != '/';
            assert(k == i) by {
                if k < i {
                    assert(cs@[k] != '/');
                }
                if k > i {
                    assert(id@[i as int] == '/');
                }
            }
        } else {
            assert(cs@.subrange(0, i as int) =~= id@);
        }
    }
    string_from_chars(&cs, 0, i)
}

/// What the registry knows of a language plugin: its id, the extensions it
/// parses and the capabilities it produces.
#[derive(Clone, Debug)]
pub struct PluginInfo {
    pub id: String,
    pub extensions: Vec<String>,
    pub capabilities: Vec<Capability>,
}

pub open spec fn claims(p: PluginInfo, ext: Seq<char>) -> bool {
    exists|k: int| 0 <= k < p.extensions@.len() && p.extensions@[k]@ == ext
}

pub open spec fn preferred_claims(p: PluginInfo, id: Seq<char>, ext: Seq<char>) -> bool {
    p.id@ == id && claims(p, ext)
}

/// First index from `i` of the plugin with id `id` that claims `ext`.
pub open spec fn first_preferred(ps: Seq<PluginInfo>, id: Seq<char>, ext: Seq<char>, i: int) -> Option<int>
    decreases ps.len() - i,
{
    if i < 0 || i >= ps.len() {
        None
    } else if preferred_claims(ps[i], id, ext) {
        Some(i)
    } else {
        first_preferred(ps, id, ext, i + 1)
    }
}

/// First index from `i` of a plugin that claims `ext`.
pub open spec fn first_claiming(ps: Seq<PluginInfo>, ext: Seq<char>, i: int) -> Option<int>
    decreases ps.len() - i,
{
    if i < 0 || i >= ps.len() {
        None
    } else if claims(ps[i], ext) {
        Some(i)
    } else {
        first_claiming(ps, ext, i + 1)
    }
}

/// The plugin that parses files with extension `ext`: the preferred plugin
/// when it claims the extension, else the first that claims it.
pub open spec fn plugin_for(ps: Seq<PluginInfo>, ext: Seq<char>, prefer: Option<Seq<char>>) -> Option<int> {
    let preferred = match prefer {
        Some(id) => first_preferred(ps, id, ext, 0),
        None => None,
    };
    match preferred {
        Some(i) => Some(i),
        None => first_claiming(ps, ext, 0),
    }
}

pub proof fn lemma_plugin_for_bound(ps: Seq<PluginInfo>, ext: Seq<char>, prefer: Option<Seq<char>>)
    ensures
        plugin_for(ps, ext, prefer) matches Some(i) ==> 0 <= i < ps.len(),
{
    match prefer {
        Some(id) => lemma_first_preferred(ps, id, ext, 0),
        None => {},
    }
    lemma_first_claiming(ps, ext, 0);
}

proof fn lemma_first_preferred(ps: Seq<PluginInfo>, id: Seq<char>, ext: Seq<char>, i: int)
    ensures
        first_preferred(ps, id, ext, i) matches Some(k) ==> 0 <= k < ps.len(),
    decreases ps.len() - i,
{
    if 0 <= i < ps.len() && !preferred_claims(ps[i], id, ext) {
        lemma_first_preferred(ps, id, ext, i + 1);
    }
}

proof fn lemma_first_claiming(ps: Seq<PluginInfo>, ext: Seq<char>, i: int)
    ensures
        first_claiming(ps, ext, i) matches Some(k) ==> 0 <= k < ps.len(),
    decreases ps.len() - i,
{
    if 0 <= i < ps.len() && !claims(ps[i], ext) {
        lemma_first_claiming(ps, ext, i + 1);
    }
}

fn claims_ext(p: &PluginInfo, ext: &str) -> (r: bool)
    ensures
        r == claims(*p, ext@),
{
    let mut k: usize = 0;
    while k < p.extensions.len()
        invariant
            k <= p.extensions@.len(),
            forall|j: int| 0 <= j < k ==> p.extensions@[j]@ != ext@,
        decreases p.extensions@.len() - k,
    {
        if str_eq(p.extensions[k].as_str(), ext) {
            return true;
        }
        k = k + 1;
    }
    false
}

pub fn plugin_by_extension(plugins: &Vec<PluginInfo>, ext: &str, prefer: Option<&str>) -> (r: Option<usize>)
    ensures
        match r {
            Some(i) => plugin_for(plugins@, ext@, match prefer { Some(s) => Some(s@), None => None }) == Some(i as int),
            None => plugin_for(plugins@, ext@, match prefer { Some(s) => Some(s@), None => None }) is None,
        },
{
    let ghost ps = plugins@;
    match prefer {
        Some(pref_id) => {
            let mut i: usize = 0;
            while i < plugins.len()
                invariant
                    i <= ps.len(),
                    ps == plugins@,
                    prefer == Some(pref_id),
                    first_preferred(ps, pref_id@, ext@, 0) == first_preferred(ps, pref_id@, ext@, i as int),
                decreases ps.len() - i,
            {
                if str_eq(plugins[i].id.as_str(), pref_id) && claims_ext(&plugins[i], ext) {
                    return Some(i);
                }
                i = i + 1;
            }
        },
        None => {},
    }
    let mut i: usize = 0;
    while i < plugins.len()
        invariant
            i <= ps.len(),
            ps == plugins@,
            first_claiming(ps, ext@, 0) == first_claiming(ps, ext@, i as int),
            match prefer {
                Some(s) => first_preferred(ps, s@, ext@, 0) is None,
                None => true,
            },
        decreases ps.len() - i,
    {
        if claims_ext(&plugins[i], ext) {
            return Some(i);
        }
        i = i + 1;
    }
    None
}

} // verus!
