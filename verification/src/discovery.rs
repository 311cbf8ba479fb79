//! Discovery decisions: which directory entries are passed over, which files
//! are linted, and the order sources are handed to the run in.

use crate::runner::{text_less_pub, text_lt};
use crate::source::SourceFile;
use crate::text::{chars_of, str_eq};
use vstd::prelude::*;

verus! {

/// Entries never walked into or read: names starting with `.git`,
/// `node_modules` and `target`.
pub open spec fn skipped_name(name: Seq<char>) -> bool {
    (name.len() >= 4 && name.subrange(0, 4) == ".git"@) || name == "node_modules"@ || name == "target"@
}

pub fn is_skipped_name(name: &str) -> (r: bool)
    ensures
        r == skipped_name(name@),
{
    proof {
        reveal_strlit(".git");
    }
    let cs = chars_of(name);
    let git = cs.len() >= 4 && cs[0] == '.' && cs[1] == 'g' && cs[2] == 'i' && cs[3] == 't';
    proof {
        if cs@.len() >= 4 {
            if git {
                assert(cs@.subrange(0, 4) =~= ".git"@);
            } else {
                assert(cs@.subrange(0, 4) != ".git"@) by {
                    if cs@.subrange(0, 4) == ".git"@ {
                        assert(cs@.subrange(0, 4)[0] == '.');
                        assert(cs@.subrange(0, 4)[1] == 'g');
                        assert(cs@.subrange(0, 4)[2] == 'i');
                        assert(cs@.subrange(0, 4)[3] == 't');
                    }
                }
            }
        }
    }
    git || str_eq(name, "node_modules") || str_eq(name, "target")
}

pub open spec fn listed(list: Seq<String>, ext: Seq<char>) -> bool {
    exists|i: int| 0 <= i < list.len() && list[i]@ == ext
}

/// Whether a file with the (lower-cased) extension `ext` is linted: a file
/// without one never is; the extensions the loaded plugins claim decide when
/// they are given, else the configured list, else every file is.
pub open spec fn wanted(ext: Option<Seq<char>>, allowed: Option<Seq<String>>, configured: Option<Seq<String>>) -> bool {
    match ext {
        None => false,
        Some(e) => match allowed {
            Some(a) => listed(a, e),
            None => match configured {
                Some(c) => listed(c, e),
                None => true,
            },
        },
    }
}

fn in_list(list: &Vec<String>, e: &str) -> (r: bool)
    ensures
        r == listed(list@, e@),
{
    let mut i: usize = 0;
    while i < list.len()
        invariant
            i <= list@.len(),
            forall|j: int| 0 <= j < i ==> (#[trigger] list@[j])@ != e@,
        decreases list@.len() - i,
    {
        if str_eq(list[i].as_str(), e) {
            return true;
        }
        i = i + 1;
    }
    false
}

pub fn extension_wanted(ext: Option<&str>, allowed: Option<&Vec<String>>, configured: Option<&Vec<String>>) -> (r: bool)
    ensures
        r == wanted(
            match ext {
                Some(e) => Some(e@),
                None => None,
            },
            match allowed {
                Some(a) => Some(a@),
                None => None,
            },
            match configured {
                Some(c) => Some(c@),
                None => None,
            },
        ),
{
    match ext {
        None => false,
        Some(e) => match allowed {
            Some(a) => in_list(a, e),
            None => match configured {
                Some(c) => in_list(c, e),
                None => true,
            },
        },
    }
}

/// `x` inserted into `s` after every source whose path it does not precede.
pub open spec fn insert_by_path(s: Seq<SourceFile>, x: SourceFile) -> Seq<SourceFile>
    decreases s.len(),
{
    if s.len() == 0 {
        seq![x]
    } else if text_lt(x.path@, s.last().path@) {
        insert_by_path(s.drop_last(), x).push(s.last())
    } else {
        s.push(x)
    }
}

/// The sources ordered by path, keeping the order of sources with the same
/// path.
pub open spec fn sort_by_path(s: Seq<SourceFile>) -> Seq<SourceFile>
    decreases s.len(),
{
    if s.len() == 0 {
        seq![]
    } else {
        insert_by_path(sort_by_path(s.drop_last()), s.last())
    }
}

proof fn lemma_insert_by_path(s: Seq<SourceFile>, x: SourceFile, j: int)
    requires
        0 <= j <= s.len(),
        forall|k: int| j <= k < s.len() ==> text_lt(x.path@, (#[trigger] s[k]).path@),
        j > 0 ==> !text_lt(x.path@, s[j - 1].path@),
    ensures
        insert_by_path(s, x) == s.insert(j, x),
    decreases s.len(),
{
    if s.len() == 0 {
        assert(s.insert(j, x) =~= seq![x]);
    } else if j == s.len() {
        assert(s.insert(j, x) =~= s.push(x));
    } else {
        assert(text_lt(x.path@, s[s.len() - 1].path@));
        lemma_insert_by_path(s.drop_last(), x, j);
        assert(s.drop_last().insert(j, x).push(s.last()) =~= s.insert(j, x));
    }
}

/// Order discovered sources by path, keeping the order of ties.
pub fn order_sources(sources: Vec<SourceFile>) -> (r: Vec<SourceFile>)
    ensures
        r@ == sort_by_path(sources@),
{
    let mut rest = sources;
    let ghost all = rest@;
    let mut out: Vec<SourceFile> = Vec::new();
    while rest.len() > 0
        invariant
            rest@.len() <= all.len(),
            rest@ == all.subrange(all.len() - rest@.len(), all.len() as int),
            out@ == sort_by_path(all.subrange(0, all.len() - rest@.len())),
        decreases rest@.len(),
    {
        let ghost k = all.len() - rest@.len();
        let x = rest.remove(0);
        proof {
            assert(rest@ =~= all.subrange(k + 1, all.len() as int));
            assert(all.subrange(0, k + 1).drop_last() =~= all.subrange(0, k));
        }
        let mut j = out.len();
        while j > 0 && text_less_pub(x.path.as_str(), out[j - 1].path.as_str())
            invariant
                j <= out@.len(),
                forall|q: int| j <= q < out@.len() ==> text_lt(x.path@, (#[trigger] out@[q]).path@),
            decreases j,
        {
            j = j - 1;
        }
        proof {
            lemma_insert_by_path(out@, x, j as int);
        }
        out.insert(j, x);
    }
    assert(all.subrange(0, all.len() as int) =~= all);
    out
}

} // verus!
