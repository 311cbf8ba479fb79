//! The demo rule modules' rules, over the facts of each file (`(path,
//! facts)` pairs in the order the engine hands them over) and, for the
//! cross-file rule, the workspace facts.

use crate::facts::{finding_at, finding_views, DefFact, DefFactV, Facts, FactsV, Finding, FindingV, UseFact, UseFactV};
use crate::text::{push_str, str_eq, string_of};
use vstd::prelude::*;

verus! {

pub open spec fn file_views(files: Seq<(String, Facts)>) -> Seq<(Seq<char>, FactsV)> {
    files.map_values(|f: (String, Facts)| (f.0@, f.1@))
}

/// Every definition of the files with its file's path, in order.
pub open spec fn defs_with_paths(files: Seq<(Seq<char>, FactsV)>) -> Seq<(Seq<char>, DefFactV)>
    decreases files.len(),
{
    if files.len() == 0 {
        seq![]
    } else {
        defs_with_paths(files.drop_last()) + files.last().1.defs.map_values(|d: DefFactV| (files.last().0, d))
    }
}

/// Every reference of the files with its file's path, in order.
pub open spec fn uses_with_paths(files: Seq<(Seq<char>, FactsV)>) -> Seq<(Seq<char>, UseFactV)>
    decreases files.len(),
{
    if files.len() == 0 {
        seq![]
    } else {
        uses_with_paths(files.drop_last()) + files.last().1.uses.map_values(|u: UseFactV| (files.last().0, u))
    }
}

pub open spec fn named(names: Seq<Seq<char>>, n: Seq<char>) -> bool {
    names.contains(n)
}

// ---------------------------------------------------------------------------
// no-empty-type
// ---------------------------------------------------------------------------

pub open spec fn fielded_kind(k: Seq<char>) -> bool {
    k == "object"@ || k == "interface"@ || k == "input"@
}

/// `demo-gql/no-empty-type`: object, interface and input definitions without
/// fields, except the names the `allow` option lists.
pub open spec fn empty_type_findings(defs: Seq<(Seq<char>, DefFactV)>, allow: Seq<Seq<char>>) -> Seq<FindingV>
    decreases defs.len(),
{
    if defs.len() == 0 {
        seq![]
    } else {
        let (p, d) = defs.last();
        empty_type_findings(defs.drop_last(), allow) + if fielded_kind(d.kind) && !named(allow, d.name) && d.fields.len() == 0 {
            seq![finding_at(p, "type `"@ + d.name + "` is empty; it must define at least one field"@, d.span, d.subject)]
        } else {
            seq![]
        }
    }
}

pub(crate) fn names_contain(names: &Vec<String>, n: &str) -> (r: bool)
    ensures
        r == named(crate::facts::strs(names@), n@),
{
    let mut i: usize = 0;
    while i < names.len()
        invariant
            i <= names@.len(),
            forall|j: int| 0 <= j < i ==> (#[trigger] names@[j])@ != n@,
        decreases names@.len() - i,
    {
        if str_eq(names[i].as_str(), n) {
            assert(crate::facts::strs(names@)[i as int] == n@);
            return true;
        }
        i = i + 1;
    }
    assert(!crate::facts::strs(names@).contains(n@)) by {
        if crate::facts::strs(names@).contains(n@) {
            let j = choose|j: int| 0 <= j < crate::facts::strs(names@).len() && crate::facts::strs(names@)[j] == n@;
            assert(names@[j]@ == n@);
        }
    }
    false
}

pub(crate) fn wrap(pre: &str, name: &str, post: &str) -> (r: String)
    ensures
        r@ == pre@ + name@ + post@,
{
    let mut s = string_of(pre);
    push_str(&mut s, name);
    push_str(&mut s, post);
    s
}

/// `demo-gql/no-empty-type` over the files, with the `allow` option.
pub fn no_empty_type(files: &Vec<(String, Facts)>, allow: &Vec<String>) -> (r: Vec<Finding>)
    ensures
        finding_views(r@) == empty_type_findings(defs_with_paths(file_views(files@)), crate::facts::strs(allow@)),
{
    let ghost fv = file_views(files@);
    let ghost al = crate::facts::strs(allow@);
    let mut out: Vec<Finding> = Vec::new();
    let mut i: usize = 0;
    assert(fv.subrange(0, 0) =~= Seq::<(Seq<char>, FactsV)>::empty());
    while i < files.len()
        invariant
            i <= files@.len(),
            fv == file_views(files@),
            al == crate::facts::strs(allow@),
            finding_views(out@) == empty_type_findings(defs_with_paths(fv.subrange(0, i as int)), al),
        decreases files@.len() - i,
    {
        let path = &files[i].0;
        let defs = &files[i].1.defs;
        assert(fv[i as int] == (path@, files[i as int].1@));
        let ghost base = defs_with_paths(fv.subrange(0, i as int));
        let mut j: usize = 0;
        assert(defs@.subrange(0, 0) =~= Seq::<DefFact>::empty());
        while j < defs.len()
            invariant
                i < files@.len(),
                j <= defs@.len(),
                fv == file_views(files@),
                al == crate::facts::strs(allow@),
                *defs == files@[i as int].1.defs,
                *path == files@[i as int].0,
                base == defs_with_paths(fv.subrange(0, i as int)),
                finding_views(out@) == empty_type_findings(
                    base + fv[i as int].1.defs.subrange(0, j as int).map_values(|d: DefFactV| (fv[i as int].0, d)),
                    al,
                ),
            decreases defs@.len() - j,
        {
            let d = &defs[j];
            let ghost pre = base + fv[i as int].1.defs.subrange(0, j as int).map_values(|x: DefFactV| (fv[i as int].0, x));
            let ghost next = base + fv[i as int].1.defs.subrange(0, j + 1).map_values(|x: DefFactV| (fv[i as int].0, x));
            assert(fv[i as int].1.defs[j as int] == d@);
            assert(next.drop_last() =~= pre);
            assert(next.last() == (path@, d@));
            let ghost before = finding_views(out@);
            let fielded = str_eq(d.kind.as_str(), "object") || str_eq(d.kind.as_str(), "interface") || str_eq(d.kind.as_str(), "input");
            if fielded && !names_contain(allow, d.name.as_str()) && d.fields.len() == 0 {
                let m = wrap("type `", d.name.as_str(), "` is empty; it must define at least one field");
                let f = Finding::at(path.clone(), m, d.span).subject(d.subject.clone());
                out.push(f);
                assert(finding_views(out@) =~= before.push(f@));
            }
            j = j + 1;
        }
        proof {
            assert(fv.subrange(0, i + 1).drop_last() =~= fv.subrange(0, i as int));
            assert(fv[i as int].1.defs.subrange(0, j as int) =~= fv[i as int].1.defs);
        }
        i = i + 1;
    }
    assert(fv.subrange(0, i as int) =~= fv);
    out
}

// ---------------------------------------------------------------------------
// no-undefined-type, duplicate-type
// ---------------------------------------------------------------------------

pub open spec fn def_names(defs: Seq<(Seq<char>, DefFactV)>) -> Seq<Seq<char>> {
    defs.map_values(|p: (Seq<char>, DefFactV)| p.1.name)
}

/// `demo-gql/no-undefined-type`: references to names no file defines.
pub open spec fn undefined_findings(uses: Seq<(Seq<char>, UseFactV)>, defined: Seq<Seq<char>>) -> Seq<FindingV>
    decreases uses.len(),
{
    if uses.len() == 0 {
        seq![]
    } else {
        let (p, u) = uses.last();
        undefined_findings(uses.drop_last(), defined) + if named(defined, u.name) {
            seq![]
        } else {
            seq![finding_at(p, "type `"@ + u.name + "` is used but not defined in the schema"@, u.span, "type-ref:"@ + u.name)]
        }
    }
}

/// `demo-gql/duplicate-type`: every definition of a name after its first,
/// except the names the `ignore` option lists.
pub open spec fn duplicate_findings(defs: Seq<(Seq<char>, DefFactV)>, ignore: Seq<Seq<char>>) -> Seq<FindingV>
    decreases defs.len(),
{
    if defs.len() == 0 {
        seq![]
    } else {
        let (p, d) = defs.last();
        duplicate_findings(defs.drop_last(), ignore) + if !named(ignore, d.name) && def_names(defs.drop_last()).contains(d.name) {
            seq![finding_at(p, "type `"@ + d.name + "` is defined more than once in the schema"@, d.span, d.subject)]
        } else {
            seq![]
        }
    }
}

/// The definitions of the files, each with its file's path.
pub(crate) fn flat_defs(files: &Vec<(String, Facts)>) -> (r: Vec<(String, &DefFact)>)
    ensures
        r@.map_values(|p: (String, &DefFact)| (p.0@, p.1@)) == defs_with_paths(file_views(files@)),
{
    let ghost fv = file_views(files@);
    let mut out: Vec<(String, &DefFact)> = Vec::new();
    let mut i: usize = 0;
    assert(out@.map_values(|p: (String, &DefFact)| (p.0@, p.1@)) =~= defs_with_paths(fv.subrange(0, 0)));
    while i < files.len()
        invariant
            i <= files@.len(),
            fv == file_views(files@),
            out@.map_values(|p: (String, &DefFact)| (p.0@, p.1@)) == defs_with_paths(fv.subrange(0, i as int)),
        decreases files@.len() - i,
    {
        let path = &files[i].0;
        let defs = &files[i].1.defs;
        assert(fv[i as int] == (path@, files[i as int].1@));
        let ghost base = defs_with_paths(fv.subrange(0, i as int));
        let mut j: usize = 0;
        while j < defs.len()
            invariant
                i < files@.len(),
                j <= defs@.len(),
                fv == file_views(files@),
                *defs == files@[i as int].1.defs,
                *path == files@[i as int].0,
                base == defs_with_paths(fv.subrange(0, i as int)),
                out@.map_values(|p: (String, &DefFact)| (p.0@, p.1@)) == base + fv[i as int].1.defs.subrange(0, j as int).map_values(
                    |d: DefFactV| (fv[i as int].0, d),
                ),
            decreases defs@.len() - j,
        {
            let ghost before = out@.map_values(|p: (String, &DefFact)| (p.0@, p.1@));
            assert(fv[i as int].1.defs[j as int] == defs@[j as int]@);
            out.push((path.clone(), &defs[j]));
            assert(out@.map_values(|p: (String, &DefFact)| (p.0@, p.1@)) =~= before.push((path@, defs@[j as int]@)));
            assert(fv[i as int].1.defs.subrange(0, j + 1).map_values(|d: DefFactV| (fv[i as int].0, d)) =~= fv[i as int].1.defs.subrange(
                0,
                j as int,
            ).map_values(|d: DefFactV| (fv[i as int].0, d)).push((path@, defs@[j as int]@)));
            j = j + 1;
        }
        proof {
            assert(fv.subrange(0, i + 1).drop_last() =~= fv.subrange(0, i as int));
            assert(fv[i as int].1.defs.subrange(0, j as int) =~= fv[i as int].1.defs);
        }
        i = i + 1;
    }
    assert(fv.subrange(0, i as int) =~= fv);
    out
}

/// The references of the files, each with its file's path.
pub(crate) fn flat_uses(files: &Vec<(String, Facts)>) -> (r: Vec<(String, &UseFact)>)
    ensures
        r@.map_values(|p: (String, &UseFact)| (p.0@, p.1@)) == uses_with_paths(file_views(files@)),
{
    let ghost fv = file_views(files@);
    let mut out: Vec<(String, &UseFact)> = Vec::new();
    let mut i: usize = 0;
    assert(out@.map_values(|p: (String, &UseFact)| (p.0@, p.1@)) =~= uses_with_paths(fv.subrange(0, 0)));
    while i < files.len()
        invariant
            i <= files@.len(),
            fv == file_views(files@),
            out@.map_values(|p: (String, &UseFact)| (p.0@, p.1@)) == uses_with_paths(fv.subrange(0, i as int)),
        decreases files@.len() - i,
    {
        let path = &files[i].0;
        let uses = &files[i].1.uses;
        assert(fv[i as int] == (path@, files[i as int].1@));
        let ghost base = uses_with_paths(fv.subrange(0, i as int));
        let mut j: usize = 0;
        while j < uses.len()
            invariant
                i < files@.len(),
                j <= uses@.len(),
                fv == file_views(files@),
                *uses == files@[i as int].1.uses,
                *path == files@[i as int].0,
                base == uses_with_paths(fv.subrange(0, i as int)),
                out@.map_values(|p: (String, &UseFact)| (p.0@, p.1@)) == base + fv[i as int].1.uses.subrange(0, j as int).map_values(
                    |u: UseFactV| (fv[i as int].0, u),
                ),
            decreases uses@.len() - j,
        {
            let ghost before = out@.map_values(|p: (String, &UseFact)| (p.0@, p.1@));
            assert(fv[i as int].1.uses[j as int] == uses@[j as int]@);
            out.push((path.clone(), &uses[j]));
            assert(out@.map_values(|p: (String, &UseFact)| (p.0@, p.1@)) =~= before.push((path@, uses@[j as int]@)));
            assert(fv[i as int].1.uses.subrange(0, j + 1).map_values(|u: UseFactV| (fv[i as int].0, u)) =~= fv[i as int].1.uses.subrange(
                0,
                j as int,
            ).map_values(|u: UseFactV| (fv[i as int].0, u)).push((path@, uses@[j as int]@)));
            j = j + 1;
        }
        proof {
            assert(fv.subrange(0, i + 1).drop_last() =~= fv.subrange(0, i as int));
            assert(fv[i as int].1.uses.subrange(0, j as int) =~= fv[i as int].1.uses);
        }
        i = i + 1;
    }
    assert(fv.subrange(0, i as int) =~= fv);
    out
}

/// `demo-gql/no-undefined-type` over the files.
pub fn no_undefined_type(files: &Vec<(String, Facts)>) -> (r: Vec<Finding>)
    ensures
        finding_views(r@) == undefined_findings(
            uses_with_paths(file_views(files@)),
            def_names(defs_with_paths(file_views(files@))),
        ),
{
    let defs = flat_defs(files);
    let ghost dv = defs@.map_values(|p: (String, &DefFact)| (p.0@, p.1@));
    let mut names: Vec<String> = Vec::new();
    let mut k: usize = 0;
    while k < defs.len()
        invariant
            k <= defs@.len(),
            dv == defs@.map_values(|p: (String, &DefFact)| (p.0@, p.1@)),
            crate::facts::strs(names@) == def_names(dv.subrange(0, k as int)),
        decreases defs@.len() - k,
    {
        let ghost before = crate::facts::strs(names@);
        names.push(defs[k].1.name.clone());
        assert(crate::facts::strs(names@) =~= before.push(dv[k as int].1.name));
        assert(def_names(dv.subrange(0, k + 1)) =~= def_names(dv.subrange(0, k as int)).push(dv[k as int].1.name));
        k = k + 1;
    }
    assert(dv.subrange(0, k as int) =~= dv);
    let uses = flat_uses(files);
    let ghost uv = uses@.map_values(|p: (String, &UseFact)| (p.0@, p.1@));
    let ghost defined = crate::facts::strs(names@);
    let mut out: Vec<Finding> = Vec::new();
    let mut i: usize = 0;
    assert(uv.subrange(0, 0) =~= Seq::<(Seq<char>, UseFactV)>::empty());
    while i < uses.len()
        invariant
            i <= uses@.len(),
            uv == uses@.map_values(|p: (String, &UseFact)| (p.0@, p.1@)),
            defined == crate::facts::strs(names@),
            finding_views(out@) == undefined_findings(uv.subrange(0, i as int), defined),
        decreases uses@.len() - i,
    {
        let (path, u) = (&uses[i].0, uses[i].1);
        assert(uv.subrange(0, i + 1).drop_last() =~= uv.subrange(0, i as int));
        assert(uv[i as int] == (path@, u@));
        let ghost before = finding_views(out@);
        if !names_contain(&names, u.name.as_str()) {
            let m = wrap("type `", u.name.as_str(), "` is used but not defined in the schema");
            let subject = wrap("type-ref:", u.name.as_str(), "");
            proof {
                reveal_strlit("");
                assert(subject@ =~= "type-ref:"@ + u.name@);
            }
            let f = Finding::at(path.clone(), m, u.span).subject(subject);
            out.push(f);
            assert(finding_views(out@) =~= before.push(f@));
        }
        i = i + 1;
    }
    assert(uv.subrange(0, i as int) =~= uv);
    out
}

/// `demo-gql/duplicate-type` over the files, with the `ignore` option.
pub fn duplicate_type(files: &Vec<(String, Facts)>, ignore: &Vec<String>) -> (r: Vec<Finding>)
    ensures
        finding_views(r@) == duplicate_findings(defs_with_paths(file_views(files@)), crate::facts::strs(ignore@)),
{
    let defs = flat_defs(files);
    let ghost dv = defs@.map_values(|p: (String, &DefFact)| (p.0@, p.1@));
    let ghost ig = crate::facts::strs(ignore@);
    let mut seen: Vec<String> = Vec::new();
    let mut out: Vec<Finding> = Vec::new();
    let mut k: usize = 0;
    assert(dv.subrange(0, 0) =~= Seq::<(Seq<char>, DefFactV)>::empty());
    while k < defs.len()
        invariant
            k <= defs@.len(),
            dv == defs@.map_values(|p: (String, &DefFact)| (p.0@, p.1@)),
            ig == crate::facts::strs(ignore@),
            crate::facts::strs(seen@) == def_names(dv.subrange(0, k as int)),
            finding_views(out@) == duplicate_findings(dv.subrange(0, k as int), ig),
        decreases defs@.len() - k,
    {
        let (path, d) = (&defs[k].0, defs[k].1);
        assert(dv.subrange(0, k + 1).drop_last() =~= dv.subrange(0, k as int));
        assert(dv[k as int] == (path@, d@));
        let ghost before = finding_views(out@);
        if !names_contain(ignore, d.name.as_str()) && names_contain(&seen, d.name.as_str()) {
            let m = wrap("type `", d.name.as_str(), "` is defined more than once in the schema");
            let f = Finding::at(path.clone(), m, d.span).subject(d.subject.clone());
            out.push(f);
            assert(finding_views(out@) =~= before.push(f@));
        }
        let ghost sb = crate::facts::strs(seen@);
        seen.push(d.name.clone());
        assert(crate::facts::strs(seen@) =~= sb.push(d.name@));
        assert(def_names(dv.subrange(0, k + 1)) =~= def_names(dv.subrange(0, k as int)).push(d.name@));
        k = k + 1;
    }
    assert(dv.subrange(0, k as int) =~= dv);
    out
}

// ---------------------------------------------------------------------------
// no-unused-type
// ---------------------------------------------------------------------------

pub open spec fn use_names(w: FactsV) -> Seq<Seq<char>> {
    w.uses.map_values(|u: UseFactV| u.name)
}

pub open spec fn root_types(w: FactsV) -> Seq<Seq<char>> {
    w.roots.map_values(|r: (Seq<char>, Seq<char>)| r.1)
}

/// Definitions neither roots nor referenced, each in its own file (else the
/// fallback file; none without either).
pub open spec fn unused_defs(defs: Seq<DefFactV>, w: FactsV, fallback: Option<Seq<char>>) -> Seq<FindingV>
    decreases defs.len(),
{
    if defs.len() == 0 {
        seq![]
    } else {
        let d = defs.last();
        let path = match d.path {
            Some(p) => Some(p),
            None => fallback,
        };
        unused_defs(defs.drop_last(), w, fallback) + if d.name == "schema"@ || named(root_types(w), d.name) || named(
            use_names(w),
            d.name,
        ) {
            seq![]
        } else {
            match path {
                Some(p) => seq![finding_at(p, "type `"@ + d.name + "` is defined but never referenced"@, d.span, d.subject)],
                None => seq![],
            }
        }
    }
}

/// `demo-gql/no-unused-type`: over the workspace facts, only once an entry
/// (schema) block makes the roots explicit.
pub open spec fn unused_type_findings(ws: Option<FactsV>, fallback: Option<Seq<char>>) -> Seq<FindingV> {
    match ws {
        None => seq![],
        Some(w) => if !w.has_entry_block {
            seq![]
        } else {
            unused_defs(w.defs, w, fallback)
        },
    }
}

pub fn no_unused_type(ws: Option<&Facts>, fallback: Option<&String>) -> (r: Vec<Finding>)
    ensures
        finding_views(r@) == unused_type_findings(
            match ws {
                Some(w) => Some(w@),
                None => None,
            },
            match fallback {
                Some(p) => Some(p@),
                None => None,
            },
        ),
{
    let mut out: Vec<Finding> = Vec::new();
    let w = match ws {
        None => {
            assert(finding_views(out@) =~= Seq::<FindingV>::empty());
            return out;
        },
        Some(w) => w,
    };
    if !w.has_entry_block {
        assert(finding_views(out@) =~= Seq::<FindingV>::empty());
        return out;
    }
    let ghost wv = w@;
    let ghost fb = match fallback {
        Some(p) => Some(p@),
        None => None,
    };
    let mut used: Vec<String> = Vec::new();
    let mut k: usize = 0;
    while k < w.uses.len()
        invariant
            k <= w.uses@.len(),
            wv == w@,
            crate::facts::strs(used@) == use_names(wv).subrange(0, k as int),
        decreases w.uses@.len() - k,
    {
        let ghost b = crate::facts::strs(used@);
        used.push(w.uses[k].name.clone());
        assert(crate::facts::strs(used@) =~= b.push(wv.uses[k as int].name));
        assert(use_names(wv).subrange(0, k + 1) =~= use_names(wv).subrange(0, k as int).push(wv.uses[k as int].name));
        k = k + 1;
    }
    assert(use_names(wv).subrange(0, k as int) =~= use_names(wv));
    let mut roots: Vec<String> = Vec::new();
    let mut k: usize = 0;
    while k < w.roots.len()
        invariant
            k <= w.roots@.len(),
            wv == w@,
            crate::facts::strs(roots@) == root_types(wv).subrange(0, k as int),
        decreases w.roots@.len() - k,
    {
        let ghost b = crate::facts::strs(roots@);
        roots.push(w.roots[k].1.clone());
        assert(crate::facts::strs(roots@) =~= b.push(wv.roots[k as int].1));
        assert(root_types(wv).subrange(0, k + 1) =~= root_types(wv).subrange(0, k as int).push(wv.roots[k as int].1));
        k = k + 1;
    }
    assert(root_types(wv).subrange(0, k as int) =~= root_types(wv));
    let mut i: usize = 0;
    assert(wv.defs.subrange(0, 0) =~= Seq::<DefFactV>::empty());
    while i < w.defs.len()
        invariant
            i <= w.defs@.len(),
            wv == w@,
            wv.has_entry_block,
            crate::facts::strs(used@) == use_names(wv),
            crate::facts::strs(roots@) == root_types(wv),
            fb == match fallback {
                Some(p) => Some(p@),
                None => None::<Seq<char>>,
            },
            finding_views(out@) == unused_defs(wv.defs.subrange(0, i as int), wv, fb),
        decreases w.defs@.len() - i,
    {
        let d = &w.defs[i];
        assert(wv.defs[i as int] == d@);
        assert(wv.defs.subrange(0, i + 1).drop_last() =~= wv.defs.subrange(0, i as int));
        let ghost before = finding_views(out@);
        let skip = str_eq(d.name.as_str(), "schema") || names_contain(&roots, d.name.as_str()) || names_contain(&used, d.name.as_str());
        if !skip {
            let path: Option<String> = match &d.path {
                Some(p) => Some(p.clone()),
                None => match fallback {
                    Some(p) => Some(p.clone()),
                    None => None,
                },
            };
            match path {
                Some(p) => {
                    let m = wrap("type `", d.name.as_str(), "` is defined but never referenced");
                    let f = Finding::at(p, m, d.span).subject(d.subject.clone());
                    out.push(f);
                    assert(finding_views(out@) =~= before.push(f@));
                },
                None => {},
            }
        }
        i = i + 1;
    }
    assert(wv.defs.subrange(0, i as int) =~= wv.defs);
    out
}

// ---------------------------------------------------------------------------
// The rule pack's run entry point
// ---------------------------------------------------------------------------

pub open spec fn first_path(files: Seq<(Seq<char>, FactsV)>) -> Option<Seq<char>> {
    if files.len() == 0 {
        None
    } else {
        Some(files[0].0)
    }
}

/// The findings the pack returns for the rules an invocation names (each
/// with the `ignore` list of its options): undefined references and unused
/// types; other ids of the pack's namespace run nothing.
pub open spec fn pack_returned(rules: Seq<(Seq<char>, Seq<Seq<char>>)>, files: Seq<(Seq<char>, FactsV)>, ws: Option<FactsV>) -> Seq<FindingV>
    decreases rules.len(),
{
    if rules.len() == 0 {
        seq![]
    } else {
        let id = rules.last().0;
        pack_returned(rules.drop_last(), files, ws) + if id == "demo-gql/no-undefined-type"@ {
            undefined_findings(uses_with_paths(files), def_names(defs_with_paths(files)))
        } else if id == "demo-gql/no-unused-type"@ {
            unused_type_findings(ws, first_path(files))
        } else {
            seq![]
        }
    }
}

/// The findings the pack streams for the rules an invocation names:
/// duplicate definitions.
pub open spec fn pack_streamed(rules: Seq<(Seq<char>, Seq<Seq<char>>)>, files: Seq<(Seq<char>, FactsV)>) -> Seq<FindingV>
    decreases rules.len(),
{
    if rules.len() == 0 {
        seq![]
    } else {
        let (id, ignore) = rules.last();
        pack_streamed(rules.drop_last(), files) + if id == "demo-gql/duplicate-type"@ {
            duplicate_findings(defs_with_paths(files), ignore)
        } else {
            seq![]
        }
    }
}

pub open spec fn rule_views(rules: Seq<(String, Vec<String>)>) -> Seq<(Seq<char>, Seq<Seq<char>>)> {
    rules.map_values(|r: (String, Vec<String>)| (r.0@, crate::facts::strs(r.1@)))
}

/// The pack's run over the files and workspace facts for the rules an
/// invocation names, each with its `ignore` option: (the findings it
/// returns, the findings it streams).
pub fn pack_run(rules: &Vec<(String, Vec<String>)>, files: &Vec<(String, Facts)>, ws: Option<&Facts>) -> (r: (Vec<Finding>, Vec<Finding>))
    ensures
        finding_views(r.0@) == pack_returned(
            rule_views(rules@),
            file_views(files@),
            match ws {
                Some(w) => Some(w@),
                None => None,
            },
        ),
        finding_views(r.1@) == pack_streamed(rule_views(rules@), file_views(files@)),
{
    let ghost rv = rule_views(rules@);
    let ghost fv = file_views(files@);
    let ghost wv = match ws {
        Some(w) => Some(w@),
        None => None::<FactsV>,
    };
    let fallback: Option<&String> = if files.len() == 0 {
        None
    } else {
        Some(&files[0].0)
    };
    assert(match fallback {
        Some(p) => Some(p@),
        None => None::<Seq<char>>,
    } == first_path(fv));
    let mut returned: Vec<Finding> = Vec::new();
    let mut streamed: Vec<Finding> = Vec::new();
    let mut i: usize = 0;
    assert(rv.subrange(0, 0) =~= Seq::<(Seq<char>, Seq<Seq<char>>)>::empty());
    while i < rules.len()
        invariant
            i <= rules@.len(),
            rv == rule_views(rules@),
            fv == file_views(files@),
            wv == match ws {
                Some(w) => Some(w@),
                None => None::<FactsV>,
            },
            match fallback {
                Some(p) => Some(p@),
                None => None::<Seq<char>>,
            } == first_path(fv),
            finding_views(returned@) == pack_returned(rv.subrange(0, i as int), fv, wv),
            finding_views(streamed@) == pack_streamed(rv.subrange(0, i as int), fv),
        decreases rules@.len() - i,
    {
        let (id, ignore) = (&rules[i].0, &rules[i].1);
        assert(rv[i as int] == (id@, crate::facts::strs(ignore@)));
        assert(rv.subrange(0, i + 1).drop_last() =~= rv.subrange(0, i as int));
        assert(rv.subrange(0, i + 1).last() == rv[i as int]);
        proof {
            reveal_strlit("demo-gql/no-undefined-type");
            reveal_strlit("demo-gql/duplicate-type");
            reveal_strlit("demo-gql/no-unused-type");
            assert("demo-gql/no-undefined-type"@[9] != "demo-gql/duplicate-type"@[9]);
            assert("demo-gql/no-unused-type"@[9] != "demo-gql/duplicate-type"@[9]);
            assert("demo-gql/no-undefined-type"@[14] != "demo-gql/no-unused-type"@[14]);
        }
        let ghost r0 = finding_views(returned@);
        let ghost s0 = finding_views(streamed@);
        let ghost last = rv.subrange(0, i + 1);
        assert(pack_returned(last, fv, wv) == pack_returned(rv.subrange(0, i as int), fv, wv) + if id@ == "demo-gql/no-undefined-type"@ {
            undefined_findings(uses_with_paths(fv), def_names(defs_with_paths(fv)))
        } else if id@ == "demo-gql/no-unused-type"@ {
            unused_type_findings(wv, first_path(fv))
        } else {
            seq![]
        });
        assert(pack_streamed(last, fv) == pack_streamed(rv.subrange(0, i as int), fv) + if id@ == "demo-gql/duplicate-type"@ {
            duplicate_findings(defs_with_paths(fv), crate::facts::strs(ignore@))
        } else {
            seq![]
        });
        if str_eq(id.as_str(), "demo-gql/no-undefined-type") {
            let mut more = no_undefined_type(files);
            let ghost added = more@;
            returned.append(&mut more);
            assert(finding_views(returned@) =~= r0 + finding_views(added));
            assert(finding_views(streamed@) =~= s0 + seq![]);
        } else if str_eq(id.as_str(), "demo-gql/duplicate-type") {
            let mut more = duplicate_type(files, ignore);
            let ghost added = more@;
            streamed.append(&mut more);
            assert(finding_views(streamed@) =~= s0 + finding_views(added));
            assert(finding_views(returned@) =~= r0 + seq![]);
        } else if str_eq(id.as_str(), "demo-gql/no-unused-type") {
            let mut more = no_unused_type(ws, fallback);
            let ghost added = more@;
            returned.append(&mut more);
            assert(finding_views(returned@) =~= r0 + finding_views(added));
            assert(finding_views(streamed@) =~= s0 + seq![]);
        } else {
            assert(finding_views(returned@) =~= r0 + seq![]);
            assert(finding_views(streamed@) =~= s0 + seq![]);
        }
        i = i + 1;
    }
    assert(rv.subrange(0, i as int) =~= rv);
    (returned, streamed)
}

} // verus!
