//! The host-side merge of per-file facts into the cross-file view: the same
//! vocabulary with a `path` on every definition and reference. This is what
//! workspace rules see when the language module computes no model itself.
//!
//! The merge reads only the top-level keys of each facts document; the values
//! it carries along unread are held as JSON leaves (a string, or any other
//! value as its JSON text).

use crate::text::{str_eq, string_of};
use vstd::prelude::*;

verus! {

/// A JSON value the merge carries without looking into it.
#[derive(Debug)]
pub enum JsonLeaf {
    /// A JSON string.
    Str(String),
    /// Any other JSON value, as its JSON text.
    Text(String),
}

/// An element of a `defs` or `uses` list: an object (its entries in key
/// order, each key once) or another value.
#[derive(Debug)]
pub enum JsonItem {
    Object(Vec<(String, JsonLeaf)>),
    Other(JsonLeaf),
}

/// What the merge reads of one file's facts; a list or flag that is absent
/// (or not of the expected JSON type) is `None`.
#[derive(Debug)]
pub struct FileFacts {
    pub path: String,
    pub defs: Option<Vec<JsonItem>>,
    pub uses: Option<Vec<JsonItem>>,
    pub directives_defined: Option<Vec<JsonLeaf>>,
    pub directives_used: Option<Vec<JsonLeaf>>,
    pub has_entry_block: Option<bool>,
    pub roots: Option<Vec<JsonLeaf>>,
}

/// The cross-file facts.
#[derive(Debug)]
pub struct MergedFacts {
    pub defs: Vec<JsonItem>,
    pub uses: Vec<JsonItem>,
    pub directives_defined: Vec<JsonLeaf>,
    pub directives_used: Vec<JsonLeaf>,
    pub has_entry_block: bool,
    pub roots: Vec<JsonLeaf>,
}

// ---------------------------------------------------------------------------
// Views
// ---------------------------------------------------------------------------

pub enum LeafV {
    Str(Seq<char>),
    Text(Seq<char>),
}

pub enum ItemV {
    Object(Seq<(Seq<char>, LeafV)>),
    Other(LeafV),
}

impl JsonLeaf {
    pub open spec fn view(&self) -> LeafV {
        match self {
            JsonLeaf::Str(s) => LeafV::Str(s@),
            JsonLeaf::Text(t) => LeafV::Text(t@),
        }
    }

    pub fn duplicate(&self) -> (r: JsonLeaf)
        ensures
            r@ == self@,
    {
        match self {
            JsonLeaf::Str(s) => JsonLeaf::Str(s.clone()),
            JsonLeaf::Text(t) => JsonLeaf::Text(t.clone()),
        }
    }

    pub fn same(&self, other: &JsonLeaf) -> (r: bool)
        ensures
            r == (self@ == other@),
    {
        match (self, other) {
            (JsonLeaf::Str(a), JsonLeaf::Str(b)) => str_eq(a.as_str(), b.as_str()),
            (JsonLeaf::Text(a), JsonLeaf::Text(b)) => str_eq(a.as_str(), b.as_str()),
            _ => false,
        }
    }
}

pub open spec fn leaf_views(s: Seq<JsonLeaf>) -> Seq<LeafV> {
    s.map_values(|l: JsonLeaf| l@)
}

pub open spec fn entry_views(s: Seq<(String, JsonLeaf)>) -> Seq<(Seq<char>, LeafV)> {
    s.map_values(|e: (String, JsonLeaf)| (e.0@, e.1@))
}

impl JsonItem {
    pub open spec fn view(&self) -> ItemV {
        match self {
            JsonItem::Object(es) => ItemV::Object(entry_views(es@)),
            JsonItem::Other(l) => ItemV::Other(l@),
        }
    }
}

pub open spec fn item_views(s: Seq<JsonItem>) -> Seq<ItemV> {
    s.map_values(|i: JsonItem| i@)
}

// ---------------------------------------------------------------------------
// Specification
// ---------------------------------------------------------------------------

/// An object's entries with `key` set to `v`: the entries under `key`
/// replaced, or the entry added last when there is none.
pub open spec fn set_entry(es: Seq<(Seq<char>, LeafV)>, key: Seq<char>, v: LeafV) -> Seq<(Seq<char>, LeafV)> {
    if exists|i: int| 0 <= i < es.len() && (#[trigger] es[i]).0 == key {
        es.map_values(|e: (Seq<char>, LeafV)| if e.0 == key { (key, v) } else { e })
    } else {
        es.push((key, v))
    }
}

/// An item with the `path` of its file: objects get a `path` entry, other
/// values stay as they are.
pub open spec fn with_path(item: ItemV, path: Seq<char>) -> ItemV {
    match item {
        ItemV::Object(es) => ItemV::Object(set_entry(es, "path"@, LeafV::Str(path))),
        ItemV::Other(l) => ItemV::Other(l),
    }
}

pub open spec fn items_with_path(items: Seq<ItemV>, path: Seq<char>) -> Seq<ItemV> {
    items.map_values(|i: ItemV| with_path(i, path))
}

pub open spec fn opt_items(o: Option<Vec<JsonItem>>) -> Seq<ItemV> {
    match o {
        Some(v) => item_views(v@),
        None => seq![],
    }
}

pub open spec fn opt_leaves(o: Option<Vec<JsonLeaf>>) -> Seq<LeafV> {
    match o {
        Some(v) => leaf_views(v@),
        None => seq![],
    }
}

/// The definitions of all files, in file order, each with its file's path.
pub open spec fn merged_defs(files: Seq<FileFacts>) -> Seq<ItemV>
    decreases files.len(),
{
    if files.len() == 0 {
        seq![]
    } else {
        merged_defs(files.drop_last()) + items_with_path(opt_items(files.last().defs), files.last().path@)
    }
}

/// The references of all files, in file order, each with its file's path.
pub open spec fn merged_uses(files: Seq<FileFacts>) -> Seq<ItemV>
    decreases files.len(),
{
    if files.len() == 0 {
        seq![]
    } else {
        merged_uses(files.drop_last()) + items_with_path(opt_items(files.last().uses), files.last().path@)
    }
}

/// `acc` followed by the values of `items` it does not hold yet, each once,
/// in first-seen order.
pub open spec fn add_new(acc: Seq<LeafV>, items: Seq<LeafV>) -> Seq<LeafV>
    decreases items.len(),
{
    if items.len() == 0 {
        acc
    } else {
        let a = add_new(acc, items.drop_last());
        if a.contains(items.last()) {
            a
        } else {
            a.push(items.last())
        }
    }
}

pub open spec fn merged_defined(files: Seq<FileFacts>) -> Seq<LeafV>
    decreases files.len(),
{
    if files.len() == 0 {
        seq![]
    } else {
        add_new(merged_defined(files.drop_last()), opt_leaves(files.last().directives_defined))
    }
}

pub open spec fn merged_used(files: Seq<FileFacts>) -> Seq<LeafV>
    decreases files.len(),
{
    if files.len() == 0 {
        seq![]
    } else {
        add_new(merged_used(files.drop_last()), opt_leaves(files.last().directives_used))
    }
}

pub open spec fn merged_roots(files: Seq<FileFacts>) -> Seq<LeafV>
    decreases files.len(),
{
    if files.len() == 0 {
        seq![]
    } else {
        merged_roots(files.drop_last()) + opt_leaves(files.last().roots)
    }
}

/// Some file has a schema (entry) block.
pub open spec fn any_entry_block(files: Seq<FileFacts>) -> bool {
    exists|i: int| 0 <= i < files.len() && (#[trigger] files[i]).has_entry_block == Some(true)
}

// ---------------------------------------------------------------------------
// Implementation
// ---------------------------------------------------------------------------

fn path_leaf(path: &String) -> (r: JsonLeaf)
    ensures
        r@ == LeafV::Str(path@),
{
    JsonLeaf::Str(path.clone())
}

fn item_with_path(item: &JsonItem, path: &String) -> (r: JsonItem)
    ensures
        r@ == with_path(item@, path@),
{
    match item {
        JsonItem::Other(l) => {
            let r = JsonItem::Other(l.duplicate());
            assert(item@ == ItemV::Other(l@));
            assert(r@ == ItemV::Other(l@));
            r
        },
        JsonItem::Object(es) => {
            let ghost ev = entry_views(es@);
            let ghost key = "path"@;
            let ghost v = LeafV::Str(path@);
            let ghost f = |e: (Seq<char>, LeafV)| if e.0 == key { (key, v) } else { e };
            let mut out: Vec<(String, JsonLeaf)> = Vec::new();
            let mut found = false;
            let mut i: usize = 0;
            while i < es.len()
                invariant
                    i <= es@.len(),
                    ev == entry_views(es@),
                    key == "path"@,
                    v == LeafV::Str(path@),
                    forall|e: (Seq<char>, LeafV)| #[trigger] f(e) == (if e.0 == key { (key, v) } else { e }),
                    entry_views(out@) == ev.subrange(0, i as int).map_values(f),
                    found == exists|j: int| 0 <= j < i && (#[trigger] ev[j]).0 == key,
                decreases es@.len() - i,
            {
                let (k, l) = (&es[i].0, &es[i].1);
                assert(ev[i as int] == (k@, l@));
                let ghost before = entry_views(out@);
                if str_eq(k.as_str(), "path") {
                    proof {
                        reveal_strlit("path");
                    }
                    out.push((string_of("path"), path_leaf(path)));
                    found = true;
                } else {
                    out.push((k.clone(), l.duplicate()));
                }
                assert(entry_views(out@) =~= before.push(f(ev[i as int])));
                assert(ev.subrange(0, i + 1).map_values(f) =~= ev.subrange(0, i as int).map_values(f).push(f(ev[i as int])));
                i = i + 1;
            }
            assert(ev.subrange(0, i as int) =~= ev);
            if !found {
                let ghost before = entry_views(out@);
                out.push((string_of("path"), path_leaf(path)));
                assert(entry_views(out@) =~= before.push((key, v)));
            }
            assert(item@ == ItemV::Object(ev));
            assert(entry_views(out@) == set_entry(ev, key, v));
            let r = JsonItem::Object(out);
            assert(r@ == ItemV::Object(set_entry(ev, key, v)));
            r
        },
    }
}

fn push_items_with_path(out: &mut Vec<JsonItem>, items: &Option<Vec<JsonItem>>, path: &String)
    ensures
        item_views(final(out)@) == item_views(old(out)@) + items_with_path(opt_items(*items), path@),
{
    let ghost start = item_views(out@);
    match items {
        None => {
            assert(items_with_path(opt_items(*items), path@) =~= Seq::<ItemV>::empty());
            assert(item_views(out@) =~= start + Seq::<ItemV>::empty());
        },
        Some(v) => {
            let ghost iv = item_views(v@);
            let mut i: usize = 0;
            while i < v.len()
                invariant
                    i <= v@.len(),
                    iv == item_views(v@),
                    item_views(out@) == start + items_with_path(iv.subrange(0, i as int), path@),
                decreases v@.len() - i,
            {
                let x = item_with_path(&v[i], path);
                let ghost before = item_views(out@);
                out.push(x);
                assert(item_views(out@) =~= before.push(x@));
                assert(items_with_path(iv.subrange(0, i + 1), path@) =~= items_with_path(iv.subrange(0, i as int), path@).push(
                    with_path(iv[i as int], path@),
                ));
                i = i + 1;
            }
            assert(iv.subrange(0, i as int) =~= iv);
        },
    }
}

fn leaves_contain(v: &Vec<JsonLeaf>, x: &JsonLeaf) -> (r: bool)
    ensures
        r == leaf_views(v@).contains(x@),
{
    let mut i: usize = 0;
    while i < v.len()
        invariant
            i <= v@.len(),
            forall|j: int| 0 <= j < i ==> (#[trigger] v@[j])@ != x@,
        decreases v@.len() - i,
    {
        if v[i].same(x) {
            assert(leaf_views(v@)[i as int] == x@);
            return true;
        }
        i = i + 1;
    }
    assert(!leaf_views(v@).contains(x@)) by {
        if leaf_views(v@).contains(x@) {
            let j = choose|j: int| 0 <= j < leaf_views(v@).len() && leaf_views(v@)[j] == x@;
            assert(v@[j]@ == x@);
        }
    }
    false
}

fn add_new_leaves(out: &mut Vec<JsonLeaf>, items: &Option<Vec<JsonLeaf>>)
    ensures
        leaf_views(final(out)@) == add_new(leaf_views(old(out)@), opt_leaves(*items)),
{
    let ghost start = leaf_views(out@);
    match items {
        None => {
            assert(opt_leaves(*items) =~= Seq::<LeafV>::empty());
        },
        Some(v) => {
            let ghost lv = leaf_views(v@);
            let mut i: usize = 0;
            assert(lv.subrange(0, 0) =~= Seq::<LeafV>::empty());
            while i < v.len()
                invariant
                    i <= v@.len(),
                    lv == leaf_views(v@),
                    leaf_views(out@) == add_new(start, lv.subrange(0, i as int)),
                decreases v@.len() - i,
            {
                assert(lv.subrange(0, i + 1).drop_last() =~= lv.subrange(0, i as int));
                assert(lv.subrange(0, i + 1).last() == v@[i as int]@);
                let ghost before = leaf_views(out@);
                if !leaves_contain(out, &v[i]) {
                    let x = v[i].duplicate();
                    out.push(x);
                    assert(leaf_views(out@) =~= before.push(x@));
                }
                i = i + 1;
            }
            assert(lv.subrange(0, i as int) =~= lv);
        },
    }
}

fn push_leaves(out: &mut Vec<JsonLeaf>, items: &Option<Vec<JsonLeaf>>)
    ensures
        leaf_views(final(out)@) == leaf_views(old(out)@) + opt_leaves(*items),
{
    let ghost start = leaf_views(out@);
    match items {
        None => {
            assert(leaf_views(out@) =~= start + opt_leaves(*items));
        },
        Some(v) => {
            let mut i: usize = 0;
            while i < v.len()
                invariant
                    i <= v@.len(),
                    leaf_views(out@) == start + leaf_views(v@).subrange(0, i as int),
                decreases v@.len() - i,
            {
                let x = v[i].duplicate();
                let ghost before = leaf_views(out@);
                out.push(x);
                assert(leaf_views(out@) =~= before.push(x@));
                assert(leaf_views(v@).subrange(0, i + 1) =~= leaf_views(v@).subrange(0, i as int).push(v@[i as int]@));
                i = i + 1;
            }
            assert(leaf_views(v@).subrange(0, i as int) =~= leaf_views(v@));
        },
    }
}

/// Merge per-file facts into the cross-file view: definitions and references
/// of every file in order, each with its file's `path`; defined and applied
/// directives each once, in first-seen order; whether any file has a schema
/// block; and every file's roots in order.
pub fn merge_facts(per_file: &Vec<FileFacts>) -> (r: MergedFacts)
    ensures
        item_views(r.defs@) == merged_defs(per_file@),
        item_views(r.uses@) == merged_uses(per_file@),
        leaf_views(r.directives_defined@) == merged_defined(per_file@),
        leaf_views(r.directives_used@) == merged_used(per_file@),
        r.has_entry_block == any_entry_block(per_file@),
        leaf_views(r.roots@) == merged_roots(per_file@),
{
    let ghost files = per_file@;
    let mut defs: Vec<JsonItem> = Vec::new();
    let mut uses: Vec<JsonItem> = Vec::new();
    let mut directives_defined: Vec<JsonLeaf> = Vec::new();
    let mut directives_used: Vec<JsonLeaf> = Vec::new();
    let mut has_entry_block = false;
    let mut roots: Vec<JsonLeaf> = Vec::new();
    let mut i: usize = 0;
    assert(item_views(defs@) =~= Seq::<ItemV>::empty());
    assert(item_views(uses@) =~= Seq::<ItemV>::empty());
    assert(leaf_views(directives_defined@) =~= Seq::<LeafV>::empty());
    assert(leaf_views(directives_used@) =~= Seq::<LeafV>::empty());
    assert(leaf_views(roots@) =~= Seq::<LeafV>::empty());
    while i < per_file.len()
        invariant
            i <= files.len(),
            files == per_file@,
            item_views(defs@) == merged_defs(files.subrange(0, i as int)),
            item_views(uses@) == merged_uses(files.subrange(0, i as int)),
            leaf_views(directives_defined@) == merged_defined(files.subrange(0, i as int)),
            leaf_views(directives_used@) == merged_used(files.subrange(0, i as int)),
            has_entry_block == any_entry_block(files.subrange(0, i as int)),
            leaf_views(roots@) == merged_roots(files.subrange(0, i as int)),
        decreases files.len() - i,
    {
        let f = &per_file[i];
        let ghost sub = files.subrange(0, i + 1);
        assert(sub.drop_last() =~= files.subrange(0, i as int));
        assert(sub.last() == files[i as int]);
        push_items_with_path(&mut defs, &f.defs, &f.path);
        push_items_with_path(&mut uses, &f.uses, &f.path);
        add_new_leaves(&mut directives_defined, &f.directives_defined);
        add_new_leaves(&mut directives_used, &f.directives_used);
        let ghost had = has_entry_block;
        match f.has_entry_block {
            Some(true) => {
                has_entry_block = true;
            },
            _ => {},
        }
        assert(has_entry_block == any_entry_block(sub)) by {
            if had {
                let j = choose|j: int| 0 <= j < i && (#[trigger] files.subrange(0, i as int)[j]).has_entry_block == Some(true);
                assert(sub[j] == files.subrange(0, i as int)[j]);
            }
            if any_entry_block(sub) {
                let j = choose|j: int| 0 <= j < sub.len() && (#[trigger] sub[j]).has_entry_block == Some(true);
                if j < i {
                    assert(files.subrange(0, i as int)[j] == sub[j]);
                }
            }
            if f.has_entry_block == Some(true) {
                assert(sub[i as int] == *f);
            }
        }
        push_leaves(&mut roots, &f.roots);
        i = i + 1;
    }
    assert(files.subrange(0, i as int) =~= files);
    MergedFacts { defs, uses, directives_defined, directives_used, has_entry_block, roots }
}

} // verus!
