//! Collections keyed by name, kept in text order: a multimap from a name to
//! the items recorded under it, and a set of names.

use crate::runner::{lemma_text_lt_irrefl, lemma_text_lt_total, lemma_text_lt_trans, text_lt, text_less_pub};
use crate::text::str_eq;
use vstd::prelude::*;

verus! {

pub open spec fn key_views<T>(s: Seq<(String, Vec<T>)>) -> Seq<Seq<char>> {
    s.map_values(|e: (String, Vec<T>)| e.0@)
}

/// Strictly increasing in text order.
pub open spec fn sorted_names(k: Seq<Seq<char>>) -> bool {
    forall|i: int, j: int| 0 <= i < j < k.len() ==> text_lt(k[i], k[j])
}

/// The items recorded under `key`.
pub open spec fn items_under<T>(s: Seq<(String, Vec<T>)>, key: Seq<char>) -> Option<Seq<T>>
    decreases s.len(),
{
    if s.len() == 0 {
        None
    } else if s[0].0@ == key {
        Some(s[0].1@)
    } else {
        items_under(s.drop_first(), key)
    }
}

/// A map from names to the items recorded under them, names in text order.
#[derive(Debug)]
pub struct ListMap<T> {
    pub entries: Vec<(String, Vec<T>)>,
}

impl<T> ListMap<T> {
    pub open spec fn wf(&self) -> bool {
        sorted_names(key_views(self.entries@))
    }

    pub open spec fn spec_get(&self, key: Seq<char>) -> Option<Seq<T>> {
        items_under(self.entries@, key)
    }

    pub fn new() -> (r: ListMap<T>)
        ensures
            r.wf(),
            r.entries@.len() == 0,
            forall|k: Seq<char>| r.spec_get(k) is None,
    {
        ListMap { entries: Vec::new() }
    }

    /// The items recorded under `key`.
    pub fn get(&self, key: &str) -> (r: Option<&Vec<T>>)
        ensures
            match r {
                Some(v) => self.spec_get(key@) == Some(v@),
                None => self.spec_get(key@) is None,
            },
    {
        let mut k: usize = 0;
        assert(self.entries@.skip(0) =~= self.entries@);
        while k < self.entries.len()
            invariant
                k <= self.entries@.len(),
                items_under(self.entries@, key@) == items_under(self.entries@.skip(k as int), key@),
            decreases self.entries@.len() - k,
        {
            assert(self.entries@.skip(k as int).drop_first() =~= self.entries@.skip(k + 1));
            if str_eq(self.entries[k].0.as_str(), key) {
                return Some(&self.entries[k].1);
            }
            k = k + 1;
        }
        None
    }

    /// Record `item` under `key`, after the items already there.
    pub fn push(&mut self, key: &str, item: T)
        requires
            old(self).wf(),
        ensures
            final(self).wf(),
            final(self).spec_get(key@) == Some(
                match old(self).spec_get(key@) {
                    Some(s) => s,
                    None => Seq::<T>::empty(),
                }.push(item),
            ),
            forall|k: Seq<char>| k != key@ ==> final(self).spec_get(k) == old(self).spec_get(k),
    {
        let ghost s = self.entries@;
        let mut i: usize = 0;
        while i < self.entries.len() && text_less_pub(self.entries[i].0.as_str(), key)
            invariant
                i <= self.entries@.len(),
                self.entries@ == s,
                sorted_names(key_views(s)),
                forall|j: int| 0 <= j < i ==> text_lt(s[j].0@, key@),
            decreases self.entries@.len() - i,
        {
            i = i + 1;
        }
        if i < self.entries.len() && str_eq(self.entries[i].0.as_str(), key) {
            let mut e = self.entries.remove(i);
            let ghost olde = e;
            e.1.push(item);
            self.entries.insert(i, e);
            proof {
                assert(self.entries@ =~= s.update(i as int, e));
                lemma_update(s, i as int, e);
                assert(key_views(self.entries@) =~= key_views(s));

            }
        } else {
            let mut v: Vec<T> = Vec::new();
            v.push(item);
            let e = (crate::text::string_of(key), v);
            proof {
                if i < s.len() {
                    lemma_text_lt_total(s[i as int].0@, key@);
                }
            }
            self.entries.insert(i, e);
            proof {
                assert(self.entries@ =~= s.insert(i as int, e));
                lemma_insert(s, i as int, e);
            }
        }
    }
}

/// In a map whose names are in text order, each entry is what its name finds.
pub proof fn lemma_items_under_at<T>(s: Seq<(String, Vec<T>)>, k: int)
    requires
        sorted_names(key_views(s)),
        0 <= k < s.len(),
    ensures
        items_under(s, s[k].0@) == Some(s[k].1@),
    decreases s.len(),
{
    if k > 0 {
        if s[0].0@ == s[k].0@ {
            assert(text_lt(key_views(s)[0], key_views(s)[k]));
            lemma_text_lt_irrefl(s[0].0@);
        }
        let t = s.drop_first();
        assert forall|i: int, j: int| 0 <= i < j < key_views(t).len() implies text_lt(key_views(t)[i], key_views(t)[j]) by {
            assert(key_views(t)[i] == key_views(s)[i + 1]);
            assert(key_views(t)[j] == key_views(s)[j + 1]);
        }
        lemma_items_under_at(t, k - 1);
    }
}

proof fn lemma_absent<T>(s: Seq<(String, Vec<T>)>, key: Seq<char>)
    requires
        forall|k: int| 0 <= k < s.len() ==> s[k].0@ != key,
    ensures
        items_under(s, key) is None,
    decreases s.len(),
{
    if s.len() > 0 {
        lemma_absent(s.drop_first(), key);
    }
}

proof fn lemma_at<T>(s: Seq<(String, Vec<T>)>, i: int)
    requires
        sorted_names(key_views(s)),
        0 <= i < s.len(),
    ensures
        items_under(s, s[i].0@) == Some(s[i].1@),
    decreases s.len(),
{
    if i > 0 {
        assert(key_views(s)[0] == s[0].0@);
        assert(key_views(s)[i] == s[i].0@);
        assert(text_lt(s[0].0@, s[i].0@));
        lemma_text_lt_irrefl(s[i].0@);
        assert(sorted_names(key_views(s.drop_first()))) by {
            assert forall|a: int, b: int| 0 <= a < b < s.drop_first().len() implies text_lt(
                key_views(s.drop_first())[a],
                key_views(s.drop_first())[b],
            ) by {
                assert(key_views(s)[a + 1] == key_views(s.drop_first())[a]);
                assert(key_views(s)[b + 1] == key_views(s.drop_first())[b]);
            }
        }
        lemma_at(s.drop_first(), i - 1);
    }
}

/// Items under other keys do not change when one entry is replaced by an
/// entry with the same key.
proof fn lemma_other_update<T>(s: Seq<(String, Vec<T>)>, i: int, e: (String, Vec<T>), k: Seq<char>)
    requires
        0 <= i < s.len(),
        s[i].0@ == e.0@,
        k != e.0@,
    ensures
        items_under(s.update(i, e), k) == items_under(s, k),
    decreases s.len(),
{
    if i > 0 {
        assert(s.update(i, e).drop_first() =~= s.drop_first().update(i - 1, e));
        lemma_other_update(s.drop_first(), i - 1, e, k);
    } else {
        assert(s.update(i, e).drop_first() =~= s.drop_first());
    }
}

proof fn lemma_update<T>(s: Seq<(String, Vec<T>)>, i: int, e: (String, Vec<T>))
    requires
        sorted_names(key_views(s)),
        0 <= i < s.len(),
        s[i].0@ == e.0@,
    ensures
        sorted_names(key_views(s.update(i, e))),
        key_views(s.update(i, e)) == key_views(s),
        items_under(s.update(i, e), e.0@) == Some(e.1@),
        forall|k: Seq<char>| k != e.0@ ==> items_under(s.update(i, e), k) == items_under(s, k),
        items_under(s, e.0@) == Some(s[i].1@),
{
    let t = s.update(i, e);
    assert(key_views(t) =~= key_views(s));
    lemma_at(t, i);
    lemma_at(s, i);
    assert forall|k: Seq<char>| k != e.0@ implies items_under(t, k) == items_under(s, k) by {
        lemma_other_update(s, i, e, k);
    }
}

proof fn lemma_other_insert<T>(s: Seq<(String, Vec<T>)>, i: int, e: (String, Vec<T>), k: Seq<char>)
    requires
        0 <= i <= s.len(),
        k != e.0@,
    ensures
        items_under(s.insert(i, e), k) == items_under(s, k),
    decreases s.len(),
{
    if i > 0 {
        assert(s.insert(i, e)[0] == s[0]);
        assert(s.insert(i, e).drop_first() =~= s.drop_first().insert(i - 1, e));
        lemma_other_insert(s.drop_first(), i - 1, e, k);
    } else {
        assert(s.insert(i, e).drop_first() =~= s);
    }
}

proof fn lemma_insert<T>(s: Seq<(String, Vec<T>)>, i: int, e: (String, Vec<T>))
    requires
        sorted_names(key_views(s)),
        0 <= i <= s.len(),
        forall|j: int| 0 <= j < i ==> text_lt(s[j].0@, e.0@),
        i < s.len() ==> text_lt(e.0@, s[i].0@),
    ensures
        sorted_names(key_views(s.insert(i, e))),
        items_under(s.insert(i, e), e.0@) == Some(e.1@),
        forall|k: Seq<char>| k != e.0@ ==> items_under(s.insert(i, e), k) == items_under(s, k),
        items_under(s, e.0@) is None,
        forall|k: Seq<char>| #![auto] key_views(s.insert(i, e)).contains(k) <==> (key_views(s).contains(k) || k == e.0@),
{
    let t = s.insert(i, e);
    let kt = key_views(t);
    let ks = key_views(s);
    assert forall|a: int, b: int| 0 <= a < b < kt.len() implies text_lt(kt[a], kt[b]) by {
        if b < i {
            assert(kt[a] == ks[a] && kt[b] == ks[b]);
        } else if b == i {
            assert(kt[b] == e.0@);
            assert(kt[a] == s[a].0@);
        } else if a < i {
            assert(kt[a] == s[a].0@);
            assert(kt[b] == s[b - 1].0@);
            if b - 1 == i {
                lemma_text_lt_trans(s[a].0@, e.0@, s[i].0@);
            } else {
                assert(text_lt(e.0@, s[i].0@));
                assert(ks[i] == s[i].0@ && ks[b - 1] == s[b - 1].0@);
                lemma_text_lt_trans(e.0@, s[i].0@, s[b - 1].0@);
                lemma_text_lt_trans(s[a].0@, e.0@, s[b - 1].0@);
            }
        } else if a == i {
            assert(kt[a] == e.0@);
            assert(kt[b] == s[b - 1].0@);
            if b - 1 > i {
                assert(ks[i] == s[i].0@ && ks[b - 1] == s[b - 1].0@);
                lemma_text_lt_trans(e.0@, s[i].0@, s[b - 1].0@);
            }
        } else {
            assert(kt[a] == ks[a - 1] && kt[b] == ks[b - 1]);
        }
    }
    lemma_at(t, i);
    assert forall|k: Seq<char>| k != e.0@ implies items_under(t, k) == items_under(s, k) by {
        lemma_other_insert(s, i, e, k);
    }
    assert forall|j: int| 0 <= j < s.len() implies s[j].0@ != e.0@ by {
        if j < i {
            lemma_text_lt_irrefl(e.0@);
        } else {
            if j > i {
                assert(ks[i] == s[i].0@ && ks[j] == s[j].0@);
                lemma_text_lt_trans(e.0@, s[i].0@, s[j].0@);
            }
            lemma_text_lt_irrefl(e.0@);
        }
    }
    lemma_absent(s, e.0@);
    assert forall|k: Seq<char>| #![auto] kt.contains(k) <==> (ks.contains(k) || k == e.0@) by {
        if kt.contains(k) {
            let j = choose|j: int| 0 <= j < kt.len() && kt[j] == k;
            if j < i {
                assert(ks[j] == k);
            } else if j > i {
                assert(ks[j - 1] == k);
            }
        }
        if ks.contains(k) {
            let j = choose|j: int| 0 <= j < ks.len() && ks[j] == k;
            if j < i {
                assert(kt[j] == k);
            } else {
                assert(kt[j + 1] == k);
            }
        }
        if k == e.0@ {
            assert(kt[i] == k);
        }
    }
}

/// A set of names, kept in text order.
#[derive(Debug)]
pub struct NameSet {
    pub names: Vec<String>,
}

pub open spec fn name_views(s: Seq<String>) -> Seq<Seq<char>> {
    s.map_values(|n: String| n@)
}

impl NameSet {
    pub open spec fn wf(&self) -> bool {
        sorted_names(name_views(self.names@))
    }

    pub open spec fn contains(&self, n: Seq<char>) -> bool {
        name_views(self.names@).contains(n)
    }

    pub fn new() -> (r: NameSet)
        ensures
            r.wf(),
            r.names@.len() == 0,
    {
        NameSet { names: Vec::new() }
    }

    /// Whether the set holds `n`.
    pub fn has(&self, n: &str) -> (r: bool)
        ensures
            r == self.contains(n@),
    {
        let mut k: usize = 0;
        while k < self.names.len()
            invariant
                k <= self.names@.len(),
                forall|j: int| 0 <= j < k ==> (#[trigger] self.names@[j])@ != n@,
            decreases self.names@.len() - k,
        {
            if str_eq(self.names[k].as_str(), n) {
                assert(name_views(self.names@)[k as int] == n@);
                return true;
            }
            k = k + 1;
        }
        assert(!name_views(self.names@).contains(n@)) by {
            if name_views(self.names@).contains(n@) {
                let j = choose|j: int| 0 <= j < name_views(self.names@).len() && name_views(self.names@)[j] == n@;
                assert(self.names@[j]@ == n@);
            }
        }
        false
    }

    /// Add a name (no change when present).
    pub fn insert(&mut self, n: &str)
        requires
            old(self).wf(),
        ensures
            final(self).wf(),
            forall|k: Seq<char>| #![auto] final(self).contains(k) <==> (old(self).contains(k) || k == n@),
    {
        let ghost s = name_views(self.names@);
        let mut i: usize = 0;
        while i < self.names.len() && text_less_pub(self.names[i].as_str(), n)
            invariant
                i <= self.names@.len(),
                name_views(self.names@) == s,
                sorted_names(s),
                forall|j: int| 0 <= j < i ==> text_lt(s[j], n@),
            decreases self.names@.len() - i,
        {
            i = i + 1;
        }
        if i < self.names.len() && str_eq(self.names[i].as_str(), n) {
            proof {
                assert(s[i as int] == n@);
            }
            return;
        }
        proof {
            if i < s.len() {
                lemma_text_lt_total(s[i as int], n@);
            }
        }
        self.names.insert(i, crate::text::string_of(n));
        proof {
            let t = name_views(self.names@);
            assert(t =~= s.insert(i as int, n@));
            lemma_insert_name(s, i as int, n@);
            assert forall|k: Seq<char>| #![auto] self.contains(k) <==> (s.contains(k) || k == n@) by {
                assert(s.insert(i as int, n@).contains(k) <==> (s.contains(k) || k == n@));
            }
        }
    }
}

proof fn lemma_insert_name(s: Seq<Seq<char>>, i: int, n: Seq<char>)
    requires
        sorted_names(s),
        0 <= i <= s.len(),
        forall|j: int| 0 <= j < i ==> text_lt(s[j], n),
        i < s.len() ==> text_lt(n, s[i]),
    ensures
        sorted_names(s.insert(i, n)),
        forall|k: Seq<char>| #![auto] s.insert(i, n).contains(k) <==> (s.contains(k) || k == n),
{
    let t = s.insert(i, n);
    assert forall|a: int, b: int| 0 <= a < b < t.len() implies text_lt(t[a], t[b]) by {
        if b < i {
        } else if b == i {
        } else if a < i {
            if b - 1 == i {
                lemma_text_lt_trans(s[a], n, s[i]);
            } else {
                lemma_text_lt_trans(n, s[i], s[b - 1]);
                lemma_text_lt_trans(s[a], n, s[b - 1]);
            }
        } else if a == i {
            if b - 1 > i {
                lemma_text_lt_trans(n, s[i], s[b - 1]);
            }
        } else {
        }
    }
    assert forall|k: Seq<char>| #![auto] t.contains(k) <==> (s.contains(k) || k == n) by {
        if t.contains(k) {
            let j = choose|j: int| 0 <= j < t.len() && t[j] == k;
            if j < i {
                assert(s[j] == k);
            } else if j > i {
                assert(s[j - 1] == k);
            }
        }
        if s.contains(k) {
            let j = choose|j: int| 0 <= j < s.len() && s[j] == k;
            if j < i {
                assert(t[j] == k);
            } else {
                assert(t[j + 1] == k);
            }
        }
        if k == n {
            assert(t[i] == k);
        }
    }
}

} // verus!
