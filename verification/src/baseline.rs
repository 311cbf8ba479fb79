//! Baseline ("TODO") records. Two suppression granularities, mixable in one
//! file:
//!
//! 1. **Per-finding identity** (default): rule id + path + stable subject
//!    identity (when the plugin provides one) + a bounded context fingerprint
//!    over the finding's span text. Line-safe; survives edits elsewhere in
//!    the file.
//!
//! 2. **Pair counts** (ratchet granularity): rule id + path + a recorded
//!    count, grouped under `pairs`. Findings fill a pair's count in order of
//!    appearance; the excess re-flags, so a pre-existing backlog can be
//!    recorded wholesale without hiding growth.

use crate::diagnostic::{Diagnostic, Located, Severity};
use crate::text::{chars_of, copy_opt_string, decimal, is_whitespace, is_ws, push_decimal, push_str, string_from_chars};
use vstd::prelude::*;

verus! {

/// A per-(rule, path) suppression budget. Findings up to `count` are
/// suppressed in order of appearance; anything beyond re-flags.
#[derive(Clone, Debug)]
pub struct BaselinePair {
    pub rule_id: String,
    pub path: String,
    pub count: u64,
}

/// One baseline entry representing an existing, "won't fix now" finding.
#[derive(Clone, Debug)]
pub struct BaselineEntry {
    pub rule_id: String,
    pub path: String,
    /// Optional domain-provided subject identity (`type:User.field:name`).
    pub subject: Option<String>,
    /// Line where the finding occurred when recorded (informational).
    pub line: u32,
    /// Bounded context fingerprint at record time.
    pub fingerprint: String,
}

/// Baseline of known findings.
#[derive(Clone, Debug)]
pub struct Baseline {
    pub generated_at: Option<String>,
    /// Per-finding entries (identity granularity).
    pub entries: Vec<BaselineEntry>,
    /// Per-(rule, path) suppression budgets (ratchet granularity).
    pub pairs: Vec<BaselinePair>,
}

impl Default for Baseline {
    fn default() -> (r: Baseline)
        ensures
            r.generated_at is None,
            r.entries@.len() == 0,
            r.pairs@.len() == 0,
    {
        Baseline { generated_at: None, entries: Vec::new(), pairs: Vec::new() }
    }
}

/// The outcome of classifying one finding against a baseline.
#[derive(Clone, Copy, Debug, PartialEq, Eq, Structural)]
pub enum BaselineMatch {
    /// An existing TODO covered this finding (entry index; `usize::MAX` for
    /// a pair budget).
    Baselined(usize),
    /// Finding is not in the baseline: report it.
    New,
}

/// A non-baselined finding to report.
#[derive(Debug)]
pub struct Reportable {
    pub diag: Diagnostic,
    pub path: String,
    pub located: Located,
}

/// The (rule id, path) key of a pair budget.
pub type PairKey = (Seq<char>, Seq<char>);

/// One remaining per-run budget for a (rule, path) pair.
#[derive(Clone, Debug)]
pub struct PairLeft {
    pub rule_id: String,
    pub path: String,
    pub left: u64,
}

/// The mutable per-run remaining budget per (rule, path) pair, filled
/// lazily from the baseline's `pairs` as findings are classified.
pub struct PairBudget {
    items: Vec<PairLeft>,
}

pub open spec fn pair_key(p: PairLeft) -> PairKey {
    (p.rule_id@, p.path@)
}

pub open spec fn items_map(s: Seq<PairLeft>) -> Map<PairKey, u64>
    decreases s.len(),
{
    if s.len() == 0 {
        Map::empty()
    } else {
        items_map(s.drop_last()).insert(pair_key(s.last()), s.last().left)
    }
}

pub open spec fn unique_keys(s: Seq<PairLeft>) -> bool {
    forall|i: int, j: int| 0 <= i < j < s.len() ==> pair_key(s[i]) != pair_key(s[j])
}

proof fn lemma_items_map_index(s: Seq<PairLeft>, i: int)
    requires
        unique_keys(s),
        0 <= i < s.len(),
    ensures
        items_map(s).contains_key(pair_key(s[i])),
        items_map(s)[pair_key(s[i])] == s[i].left,
    decreases s.len(),
{
    if i < s.len() - 1 {
        lemma_items_map_index(s.drop_last(), i);
    }
}

proof fn lemma_items_map_absent(s: Seq<PairLeft>, k: PairKey)
    requires
        forall|i: int| 0 <= i < s.len() ==> pair_key(#[trigger] s[i]) != k,
    ensures
        !items_map(s).contains_key(k),
    decreases s.len(),
{
    if s.len() > 0 {
        lemma_items_map_absent(s.drop_last(), k);
    }
}

proof fn lemma_items_map_update(s: Seq<PairLeft>, i: int, v: PairLeft)
    requires
        unique_keys(s),
        0 <= i < s.len(),
        pair_key(v) == pair_key(s[i]),
    ensures
        items_map(s.update(i, v)) == items_map(s).insert(pair_key(v), v.left),
        unique_keys(s.update(i, v)),
    decreases s.len(),
{
    let t = s.update(i, v);
    if i == s.len() - 1 {
        assert(t.drop_last() == s.drop_last());
        assert(items_map(t) =~= items_map(s).insert(pair_key(v), v.left));
    } else {
        lemma_items_map_update(s.drop_last(), i, v);
        assert(t.drop_last() == s.drop_last().update(i, v));
        assert(items_map(t) =~= items_map(s).insert(pair_key(v), v.left));
    }
}

impl PairBudget {
    pub closed spec fn view(&self) -> Map<PairKey, u64> {
        items_map(self.items@)
    }

    pub closed spec fn wf(&self) -> bool {
        unique_keys(self.items@)
    }

    /// An empty budget: nothing has been drawn yet.
    pub fn new() -> (r: PairBudget)
        ensures
            r.wf(),
            r@ == Map::<PairKey, u64>::empty(),
    {
        PairBudget { items: Vec::new() }
    }

    /// Remaining budget for a pair, when it has been set.
    pub fn get(&self, rule_id: &String, path: &String) -> (r: Option<u64>)
        requires
            self.wf(),
        ensures
            r == if self@.contains_key((rule_id@, path@)) {
                Some(self@[(rule_id@, path@)])
            } else {
                None::<u64>
            },
    {
        match self.find(rule_id, path) {
            Some(i) => {
                proof {
                    lemma_items_map_index(self.items@, i as int);
                }
                Some(self.items[i].left)
            },
            None => None,
        }
    }

    fn find(&self, rule_id: &String, path: &String) -> (r: Option<usize>)
        requires
            self.wf(),
        ensures
            r matches Some(i) ==> i < self.items@.len() && pair_key(self.items@[i as int]) == (
            rule_id@, path@),
            r is None ==> !self@.contains_key((rule_id@, path@)),
    {
        let mut i: usize = 0;
        while i < self.items.len()
            invariant
                i <= self.items@.len(),
                forall|j: int| 0 <= j < i ==> pair_key(#[trigger] self.items@[j]) != (rule_id@, path@),
            decreases self.items.len() - i,
        {
            if self.items[i].rule_id == *rule_id && self.items[i].path == *path {
                return Some(i);
            }
            i = i + 1;
        }
        proof {
            lemma_items_map_absent(self.items@, (rule_id@, path@));
        }
        None
    }

    /// Set the remaining budget of a pair.
    pub fn set(&mut self, rule_id: &String, path: &String, left: u64)
        requires
            old(self).wf(),
        ensures
            final(self).wf(),
            final(self)@ == old(self)@.insert((rule_id@, path@), left),
    {
        let item = PairLeft { rule_id: rule_id.clone(), path: path.clone(), left };
        match self.find(rule_id, path) {
            Some(i) => {
                proof {
                    lemma_items_map_update(self.items@, i as int, item);
                }
                self.items.set(i, item);
            },
            None => {
                proof {
                    assert forall|j: int| 0 <= j < self.items@.len() implies pair_key(
                        #[trigger] self.items@[j],
                    ) != pair_key(item) by {
                        if pair_key(self.items@[j]) == pair_key(item) {
                            lemma_items_map_index(self.items@, j);
                        }
                    }
                    assert(self.items@.push(item).drop_last() == self.items@);
                }
                self.items.push(item);
            },
        }
    }
}

pub open spec fn opt_index(o: Option<usize>) -> Option<int> {
    match o {
        Some(i) => Some(i as int),
        None => None,
    }
}

/// The entry belongs to the finding's rule and path.
pub open spec fn entry_for(e: BaselineEntry, d: Diagnostic, path: Seq<char>) -> bool {
    e.rule_id@ == d.rule_id@ && e.path@ == path
}

/// The entry records the finding's stable subject.
pub open spec fn subject_hit(e: BaselineEntry, d: Diagnostic, path: Seq<char>) -> bool {
    &&& entry_for(e, d, path)
    &&& e.subject matches Some(s)
    &&& d.subject matches Some(t)
    &&& s@ == t@
}

/// The entry records the finding's context fingerprint.
pub open spec fn fingerprint_hit(e: BaselineEntry, d: Diagnostic, path: Seq<char>, fp: Seq<char>) -> bool {
    entry_for(e, d, path) && e.fingerprint@ == fp
}

/// Count recorded for a (rule, path) pair: the first matching pair, else 0.
pub open spec fn recorded_count(pairs: Seq<BaselinePair>, rule: Seq<char>, path: Seq<char>) -> u64
    decreases pairs.len(),
{
    if pairs.len() == 0 {
        0
    } else if pairs[0].rule_id@ == rule && pairs[0].path@ == path {
        pairs[0].count
    } else {
        recorded_count(pairs.drop_first(), rule, path)
    }
}

impl Baseline {
    /// First entry index matching by subject identity, if any.
    pub open spec fn subject_match(self, d: Diagnostic, path: Seq<char>) -> Option<int> {
        if exists|i: int| 0 <= i < self.entries@.len() && subject_hit(self.entries@[i], d, path) {
            Some(
                choose|i: int|
                    0 <= i < self.entries@.len() && subject_hit(self.entries@[i], d, path) && forall|
                        j: int,
                    |
                        0 <= j < i ==> !subject_hit(self.entries@[j], d, path),
            )
        } else {
            None
        }
    }

    /// First entry index matching by fingerprint, if any.
    pub open spec fn fingerprint_match(self, d: Diagnostic, path: Seq<char>, fp: Seq<char>) -> Option<int> {
        if exists|i: int| 0 <= i < self.entries@.len() && fingerprint_hit(self.entries@[i], d, path, fp) {
            Some(
                choose|i: int|
                    0 <= i < self.entries@.len() && fingerprint_hit(self.entries@[i], d, path, fp)
                        && forall|j: int|
                        0 <= j < i ==> !fingerprint_hit(self.entries@[j], d, path, fp),
            )
        } else {
            None
        }
    }

    /// Budget left for a pair before this classification: what the run has
    /// left, or the recorded count when the pair was not drawn on yet.
    pub open spec fn budget_before(self, budget: Map<PairKey, u64>, rule: Seq<char>, path: Seq<char>) -> u64 {
        if budget.contains_key((rule, path)) {
            budget[(rule, path)]
        } else {
            recorded_count(self.pairs@, rule, path)
        }
    }

    fn first_hit(&self, diag: &Diagnostic, path: &str, fingerprint: &str, by_subject: bool) -> (r: Option<usize>)
        ensures
            by_subject ==> opt_index(r) == self.subject_match(*diag, path@),
            !by_subject ==> opt_index(r) == self.fingerprint_match(*diag, path@, fingerprint@),
    {
        let ghost hit = |e: BaselineEntry|
            if by_subject {
                subject_hit(e, *diag, path@)
            } else {
                fingerprint_hit(e, *diag, path@, fingerprint@)
            };
        let mut i: usize = 0;
        while i < self.entries.len()
            invariant
                i <= self.entries@.len(),
                forall|j: int| 0 <= j < i ==> !hit(#[trigger] self.entries@[j]),
                hit == (|e: BaselineEntry|
                    if by_subject {
                        subject_hit(e, *diag, path@)
                    } else {
                        fingerprint_hit(e, *diag, path@, fingerprint@)
                    }),
            decreases self.entries.len() - i,
        {
            let e = &self.entries[i];
            let same = crate::text::str_eq(e.rule_id.as_str(), diag.rule_id.as_str())
                && crate::text::str_eq(e.path.as_str(), path);
            if same {
                let h = if by_subject {
                    match (&e.subject, &diag.subject) {
                        (Some(s), Some(t)) => crate::text::str_eq(s.as_str(), t.as_str()),
                        _ => false,
                    }
                } else {
                    crate::text::str_eq(e.fingerprint.as_str(), fingerprint)
                };
                if h {
                    proof {
                        assert(hit(self.entries@[i as int]));
                        if by_subject {
                            let k = self.subject_match(*diag, path@).unwrap();
                            assert(k == i) by {
                                if k < i {
                                    assert(!hit(self.entries@[k]));
                                }
                                if k > i {
                                    assert(!subject_hit(self.entries@[i as int], *diag, path@));
                                }
                            }
                        } else {
                            let k = self.fingerprint_match(*diag, path@, fingerprint@).unwrap();
                            assert(k == i) by {
                                if k < i {
                                    assert(!hit(self.entries@[k]));
                                }
                                if k > i {
                                    assert(!fingerprint_hit(self.entries@[i as int], *diag, path@, fingerprint@));
                                }
                            }
                        }
                    }
                    return Some(i);
                }
            }
            assert(!hit(self.entries@[i as int]));
            i = i + 1;
        }
        None
    }

    fn recorded(&self, rule_id: &String, path: &str) -> (r: u64)
        ensures
            r == recorded_count(self.pairs@, rule_id@, path@),
    {
        let mut i: usize = 0;
        assert(self.pairs@.skip(0) == self.pairs@);
        while i < self.pairs.len()
            invariant
                i <= self.pairs@.len(),
                recorded_count(self.pairs@, rule_id@, path@) == recorded_count(
                    self.pairs@.skip(i as int),
                    rule_id@,
                    path@,
                ),
            decreases self.pairs.len() - i,
        {
            let p = &self.pairs[i];
            assert(self.pairs@.skip(i as int).drop_first() == self.pairs@.skip(i + 1));
            if crate::text::str_eq(p.rule_id.as_str(), rule_id.as_str()) && crate::text::str_eq(
                p.path.as_str(),
                path,
            ) {
                return p.count;
            }
            i = i + 1;
        }
        0
    }

    /// Classify a fresh finding as baselined or new.
    ///
    /// Identity match first (subject, then fingerprint); then a pair-count
    /// budget if the finding's (rule, path) pair has recorded counts.
    /// `pair_budget_left` is the mutable per-run remaining budget per pair.
    pub fn classify(
        &self,
        diag: &Diagnostic,
        path: &str,
        fingerprint: &str,
        pair_budget_left: &mut PairBudget,
    ) -> (r: BaselineMatch)
        requires
            old(pair_budget_left).wf(),
        ensures
            final(pair_budget_left).wf(),
            self.subject_match(*diag, path@) matches Some(i) ==> r == BaselineMatch::Baselined(
                i as usize,
            ) && final(pair_budget_left)@ == old(pair_budget_left)@,
            self.subject_match(*diag, path@) is None ==> (self.fingerprint_match(
                *diag,
                path@,
                fingerprint@,
            ) matches Some(i) ==> r == BaselineMatch::Baselined(i as usize)
                && final(pair_budget_left)@ == old(pair_budget_left)@),
            self.subject_match(*diag, path@) is None && self.fingerprint_match(
                *diag,
                path@,
                fingerprint@,
            ) is None ==> {
                let left = self.budget_before(old(pair_budget_left)@, diag.rule_id@, path@);
                &&& r == if left > 0 {
                    BaselineMatch::Baselined(usize::MAX)
                } else {
                    BaselineMatch::New
                }
                &&& final(pair_budget_left)@ == old(pair_budget_left)@.insert(
                    (diag.rule_id@, path@),
                    if left > 0 { (left - 1) as u64 } else { 0 },
                )
            },
    {
        if let Some(i) = self.first_hit(diag, path, fingerprint, true) {
            return BaselineMatch::Baselined(i);
        }
        if let Some(i) = self.first_hit(diag, path, fingerprint, false) {
            return BaselineMatch::Baselined(i);
        }
        let path_s = crate::text::string_of(path);
        let left = match pair_budget_left.get(&diag.rule_id, &path_s) {
            Some(n) => n,
            None => self.recorded(&diag.rule_id, path),
        };
        if left > 0 {
            pair_budget_left.set(&diag.rule_id, &path_s, left - 1);
            BaselineMatch::Baselined(usize::MAX)
        } else {
            pair_budget_left.set(&diag.rule_id, &path_s, 0);
            BaselineMatch::New
        }
    }
}


// ---------------------------------------------------------------------------
// Recording and pruning
// ---------------------------------------------------------------------------

/// The trusted clock: seconds since the UNIX epoch, or 0 when the clock is
/// before it. Nothing is promised of the value.
#[verifier::external_body]
fn epoch_secs() -> u64 {
    std::time::SystemTime::now().duration_since(std::time::UNIX_EPOCH).map(|d| d.as_secs()).unwrap_or(0)
}

/// The timestamp text a baseline records: `epoch-<seconds>`.
pub open spec fn epoch_stamp(secs: nat) -> Seq<char> {
    "epoch-"@ + decimal(secs)
}

/// Every stamp is `epoch-` followed by one or more ASCII digits.
pub proof fn law_epoch_stamp_shape(secs: nat)
    ensures
        epoch_stamp(secs).len() > 6,
        epoch_stamp(secs).subrange(0, 6) == "epoch-"@,
        forall|k: int| 6 <= k < epoch_stamp(secs).len() ==> '0' <= #[trigger] epoch_stamp(secs)[k] <= '9',
{
    reveal_strlit("epoch-");
    crate::text::lemma_decimal_digits(secs);
    let st = epoch_stamp(secs);
    assert(st.subrange(0, 6) =~= "epoch-"@);
    assert forall|k: int| 6 <= k < st.len() implies '0' <= #[trigger] st[k] <= '9' by {
        assert(st[k] == decimal(secs)[k - 6]);
    }
}

/// The stamp for `secs` seconds since the UNIX epoch: `epoch-<secs>`.
pub fn epoch_stamp_of(secs: u64) -> (r: String)
    ensures
        r@ == epoch_stamp(secs as nat),
{
    let mut r = String::new();
    push_str(&mut r, "epoch-");
    push_decimal(&mut r, secs);
    r
}

/// Current time as `epoch-<seconds since the UNIX epoch>`: the stamp of what
/// the clock reads (0 before the epoch).
pub fn now_iso() -> (r: String)
    ensures
        exists|secs: u64| r@ == epoch_stamp(secs as nat),
        r@.len() > 6,
        r@.subrange(0, 6) == "epoch-"@,
        forall|k: int| 6 <= k < r@.len() ==> '0' <= #[trigger] r@[k] <= '9',
{
    let secs = epoch_secs();
    proof {
        law_epoch_stamp_shape(secs as nat);
    }
    epoch_stamp_of(secs)
}

/// The baseline entry recording one finding.
pub open spec fn entry_of(d: Diagnostic, path: String, line: u32, fp: String) -> BaselineEntry {
    BaselineEntry { rule_id: d.rule_id, path, subject: d.subject, line, fingerprint: fp }
}

/// Record a set of fresh diagnostics `(diag, path, line, fingerprint)` into
/// a baseline (TODO generate): one entry per finding, in order, no pairs.
pub fn build_baseline(diags: Vec<(Diagnostic, String, u32, String)>) -> (r: Baseline)
    ensures
        r.generated_at matches Some(g) && exists|secs: u64| g@ == epoch_stamp(secs as nat),
        r.entries@.len() == diags@.len(),
        forall|i: int|
            0 <= i < diags@.len() ==> #[trigger] r.entries@[i] == entry_of(
                diags@[i].0,
                diags@[i].1,
                diags@[i].2,
                diags@[i].3,
            ),
        r.pairs@.len() == 0,
{
    let mut entries: Vec<BaselineEntry> = Vec::new();
    let ghost orig = diags@;
    let mut rest = diags;
    // consume from the back, then reverse the order back
    let n = rest.len();
    let mut rev: Vec<BaselineEntry> = Vec::new();
    while rest.len() > 0
        invariant
            n == orig.len(),
            rest@ == orig.subrange(0, rest@.len() as int),
            rev@.len() == n - rest@.len(),
            forall|j: int|
                0 <= j < rev@.len() ==> #[trigger] rev@[j] == entry_of(
                    orig[n - 1 - j].0,
                    orig[n - 1 - j].1,
                    orig[n - 1 - j].2,
                    orig[n - 1 - j].3,
                ),
        decreases rest.len(),
    {
        let (d, path, line, fp) = rest.pop().unwrap();
        rev.push(BaselineEntry { rule_id: d.rule_id, path, subject: d.subject, line, fingerprint: fp });
    }
    while rev.len() > 0
        invariant
            n == orig.len(),
            rev@.len() + entries@.len() == n,
            forall|j: int|
                0 <= j < rev@.len() ==> #[trigger] rev@[j] == entry_of(
                    orig[n - 1 - j].0,
                    orig[n - 1 - j].1,
                    orig[n - 1 - j].2,
                    orig[n - 1 - j].3,
                ),
            forall|j: int|
                0 <= j < entries@.len() ==> #[trigger] entries@[j] == entry_of(
                    orig[j].0,
                    orig[j].1,
                    orig[j].2,
                    orig[j].3,
                ),
        decreases rev.len(),
    {
        let e = rev.pop().unwrap();
        entries.push(e);
    }
    Baseline { generated_at: Some(now_iso()), entries, pairs: Vec::new() }
}

/// A (rule id, path) pair is listed.
pub open spec fn pair_listed(still_valid: Seq<(String, String)>, rule: Seq<char>, path: Seq<char>) -> bool {
    exists|i: int| 0 <= i < still_valid.len() && still_valid[i].0@ == rule && still_valid[i].1@ == path
}

/// The entry survives a prune against `still_valid`.
pub open spec fn keeps(still_valid: Seq<(String, String)>) -> spec_fn(BaselineEntry) -> bool {
    |e: BaselineEntry| pair_listed(still_valid, e.rule_id@, e.path@)
}

fn listed(still_valid: &Vec<(String, String)>, rule: &String, path: &String) -> (r: bool)
    ensures
        r == pair_listed(still_valid@, rule@, path@),
{
    let mut i: usize = 0;
    while i < still_valid.len()
        invariant
            i <= still_valid@.len(),
            forall|j: int|
                0 <= j < i ==> !(still_valid@[j].0@ == rule@ && still_valid@[j].1@ == path@),
        decreases still_valid.len() - i,
    {
        if still_valid[i].0 == *rule && still_valid[i].1 == *path {
            return true;
        }
        i = i + 1;
    }
    false
}

/// Remove baseline entries whose (rule id, path) pair no longer has a live
/// finding; everything else is kept as it was.
pub fn prune_baseline(baseline: Baseline, still_valid: &Vec<(String, String)>) -> (r: Baseline)
    ensures
        r.generated_at == baseline.generated_at,
        r.pairs@ == baseline.pairs@,
        r.entries@ == baseline.entries@.filter(keeps(still_valid@)),
{
    let Baseline { generated_at, entries, pairs } = baseline;
    let ghost orig = entries@;
    let mut kept: Vec<BaselineEntry> = Vec::new();
    let mut rev: Vec<BaselineEntry> = Vec::new();
    let mut rest = entries;
    while rest.len() > 0
        invariant
            rest@ == orig.subrange(0, rest@.len() as int),
            rev@.len() == orig.len() - rest@.len(),
            forall|j: int| 0 <= j < rev@.len() ==> #[trigger] rev@[j] == orig[orig.len() - 1 - j],
        decreases rest.len(),
    {
        let e = rest.pop().unwrap();
        rev.push(e);
    }
    while rev.len() > 0
        invariant
            rev@.len() <= orig.len(),
            forall|j: int| 0 <= j < rev@.len() ==> #[trigger] rev@[j] == orig[orig.len() - 1 - j],
            kept@ == orig.subrange(0, orig.len() - rev@.len()).filter(keeps(still_valid@)),
        decreases rev.len(),
    {
        let ghost done = (orig.len() - rev@.len()) as int;
        let e = rev.pop().unwrap();
        proof {
            assert(e == orig[done]);
            assert(orig.subrange(0, done + 1) == orig.subrange(0, done).push(e));
            orig.subrange(0, done).lemma_filter_push(e, keeps(still_valid@));
        }
        if listed(still_valid, &e.rule_id, &e.path) {
            kept.push(e);
        }
    }
    assert(orig.subrange(0, orig.len() as int) == orig);
    Baseline { generated_at, entries: kept, pairs }
}

// ---------------------------------------------------------------------------
// Severity totals
// ---------------------------------------------------------------------------

/// Number of findings of each severity.
#[derive(Clone, Copy, Debug, PartialEq, Eq, Structural)]
pub struct SeverityTotals {
    pub info: usize,
    pub warning: usize,
    pub error: usize,
    pub off: usize,
}

/// How many of `s` have severity `sev`.
pub open spec fn count_sev(s: Seq<Severity>, sev: Severity) -> nat
    decreases s.len(),
{
    if s.len() == 0 {
        0
    } else {
        count_sev(s.drop_last(), sev) + if s.last() == sev { 1nat } else { 0nat }
    }
}

proof fn lemma_count_sev_le(s: Seq<Severity>, sev: Severity)
    ensures
        count_sev(s, sev) <= s.len(),
    decreases s.len(),
{
    if s.len() > 0 {
        lemma_count_sev_le(s.drop_last(), sev);
    }
}

/// The severities of a list of reportables.
pub open spec fn severities(items: Seq<Reportable>) -> Seq<Severity> {
    items.map_values(|r: Reportable| r.diag.severity)
}

impl SeverityTotals {
    pub open spec fn spec_get(self, sev: Severity) -> usize {
        match sev {
            Severity::Info => self.info,
            Severity::Warning => self.warning,
            Severity::Error => self.error,
            Severity::Off => self.off,
        }
    }

    /// The total for one severity.
    pub fn get(&self, sev: Severity) -> (r: usize)
        ensures
            r == self.spec_get(sev),
    {
        match sev {
            Severity::Info => self.info,
            Severity::Warning => self.warning,
            Severity::Error => self.error,
            Severity::Off => self.off,
        }
    }

    /// The totals count exactly the given severities.
    pub open spec fn counts(self, s: Seq<Severity>) -> bool {
        forall|sev: Severity| #[trigger] self.spec_get(sev) == count_sev(s, sev)
    }
}

/// Every finding counts under exactly one severity: the four totals add up
/// to the number of findings.
pub proof fn law_totals_add_up(s: Seq<Severity>)
    ensures
        count_sev(s, Severity::Info) + count_sev(s, Severity::Warning) + count_sev(s, Severity::Error) + count_sev(
            s,
            Severity::Off,
        ) == s.len(),
    decreases s.len(),
{
    if s.len() > 0 {
        law_totals_add_up(s.drop_last());
    }
}

/// Count the findings of each severity.
pub fn count_severities(items: &[Reportable]) -> (r: SeverityTotals)
    ensures
        r.counts(severities(items@)),
{
    let mut t = SeverityTotals { info: 0, warning: 0, error: 0, off: 0 };
    let mut i: usize = 0;
    while i < items.len()
        invariant
            i <= items@.len(),
            t.counts(severities(items@.subrange(0, i as int))),
        decreases items.len() - i,
    {
        let ghost pre = severities(items@.subrange(0, i as int));
        let sev = items[i].diag.severity;
        assert(severities(items@.subrange(0, i + 1)) == pre.push(sev));
        proof {
            lemma_count_sev_le(pre, sev);
            assert(t.spec_get(sev) == count_sev(pre, sev));
            assert(pre.push(sev).drop_last() == pre);
        }
        let ghost t0 = t;
        match sev {
            Severity::Info => t.info = t.info + 1,
            Severity::Warning => t.warning = t.warning + 1,
            Severity::Error => t.error = t.error + 1,
            Severity::Off => t.off = t.off + 1,
        }
        assert forall|s2: Severity| #[trigger] t.spec_get(s2) == count_sev(pre.push(sev), s2) by {
            assert(t0.spec_get(s2) == count_sev(pre, s2));
        }
        i = i + 1;
    }
    assert(items@.subrange(0, items@.len() as int) == items@);
    t
}


// ---------------------------------------------------------------------------
// Inline suppression markers
// ---------------------------------------------------------------------------

/// Position of the first `\n` at or after `i`, or the length.
pub open spec fn index_of_nl(s: Seq<char>, i: int) -> int
    decreases s.len() - i,
{
    if i >= s.len() {
        s.len() as int
    } else if s[i] == '\n' {
        i
    } else {
        index_of_nl(s, i + 1)
    }
}

pub proof fn lemma_index_of_nl(s: Seq<char>, i: int)
    requires
        0 <= i,
    ensures
        i <= index_of_nl(s, i) || i > s.len(),
        index_of_nl(s, i) <= s.len(),
        index_of_nl(s, i) < s.len() ==> s[index_of_nl(s, i)] == '\n',
        forall|j: int| i <= j < index_of_nl(s, i) ==> s[j] != '\n',
    decreases s.len() - i,
{
    if i < s.len() && s[i] != '\n' {
        lemma_index_of_nl(s, i + 1);
    }
}

/// A line without its terminating `\r`.
pub open spec fn strip_cr(l: Seq<char>) -> Seq<char> {
    if l.len() > 0 && l.last() == '\r' {
        l.drop_last()
    } else {
        l
    }
}

/// `str::lines` of `s[p..]`: split at `\n`, a `\r` before the `\n` dropped,
/// no empty last line after a final line ending.
pub open spec fn lines_from(s: Seq<char>, p: int) -> Seq<Seq<char>>
    decreases s.len() - p,
{
    if p < 0 || p >= s.len() {
        seq![]
    } else {
        let k = index_of_nl(s, p);
        if k >= s.len() {
            seq![s.subrange(p, s.len() as int)]
        } else {
            proof {
                lemma_index_of_nl(s, p);
            }
            seq![strip_cr(s.subrange(p, k))] + lines_from(s, k + 1)
        }
    }
}

/// First index at or after `i` whose char fails `keep`.
pub open spec fn skip_while_ws(s: Seq<char>, i: int) -> int
    decreases s.len() - i,
{
    if i >= s.len() || !is_ws(s[i]) {
        i
    } else {
        skip_while_ws(s, i + 1)
    }
}

/// `str::trim_start`: drop leading Unicode white space.
pub open spec fn trim_start(s: Seq<char>) -> Seq<char> {
    s.skip(skip_while_ws(s, 0))
}

/// The text that introduces a suppression marker.
pub open spec fn marker_word() -> Seq<char> {
    "omni-lint-disable-next-line"@
}

/// The text after `#` or `//` at the start of a (left-trimmed) line.
pub open spec fn after_comment(t: Seq<char>) -> Option<Seq<char>> {
    if t.len() >= 1 && t[0] == '#' {
        Some(t.skip(1))
    } else if t.len() >= 2 && t[0] == '/' && t[1] == '/' {
        Some(t.skip(2))
    } else {
        None
    }
}

/// For a marker line, the text after `omni-lint-disable-next-line`.
pub open spec fn marker_rest(line: Seq<char>) -> Option<Seq<char>> {
    match after_comment(trim_start(line)) {
        None => None,
        Some(rest) => {
            let r = trim_start(rest);
            if r.len() >= marker_word().len() && r.subrange(0, marker_word().len() as int)
                == marker_word() {
                Some(r.skip(marker_word().len() as int))
            } else {
                None
            }
        },
    }
}

/// Rule ids are separated by `,` or white space.
pub open spec fn is_sep(c: char) -> bool {
    c == ',' || is_ws(c)
}

pub open spec fn skip_seps(s: Seq<char>, i: int) -> int
    decreases s.len() - i,
{
    if i >= s.len() || !is_sep(s[i]) {
        i
    } else {
        skip_seps(s, i + 1)
    }
}

pub open spec fn word_end(s: Seq<char>, i: int) -> int
    decreases s.len() - i,
{
    if i >= s.len() || is_sep(s[i]) {
        i
    } else {
        word_end(s, i + 1)
    }
}

pub proof fn lemma_skip_bounds(s: Seq<char>, i: int)
    requires
        0 <= i <= s.len(),
    ensures
        i <= skip_seps(s, i) <= s.len(),
        i <= word_end(s, i) <= s.len(),
        i <= skip_while_ws(s, i) <= s.len(),
        skip_seps(s, i) < s.len() ==> !is_sep(s[skip_seps(s, i)]),
        skip_seps(s, i) < s.len() ==> word_end(s, skip_seps(s, i)) > skip_seps(s, i),
    decreases s.len() - i,
{
    if i < s.len() {
        lemma_skip_bounds(s, i + 1);
    }
}

/// The words of `s[i..]`: maximal runs of non-separator characters.
pub open spec fn words_from(s: Seq<char>, i: int) -> Seq<Seq<char>>
    decreases s.len() - i,
{
    if i < 0 || i > s.len() {
        seq![]
    } else {
        let j = skip_seps(s, i);
        if j >= s.len() {
            seq![]
        } else {
            proof {
                lemma_skip_bounds(s, i);
                lemma_skip_bounds(s, j);
                assert(word_end(s, j) > i);
                assert(word_end(s, j) <= s.len());
                assert(decreases_to!(s.len() - i => s.len() - word_end(s, j)));
            }
            seq![s.subrange(j, word_end(s, j))] + words_from(s, word_end(s, j))
        }
    }
}

/// One suppression marker: findings on `line` are suppressed for `rules`
/// (every rule when `rules` is empty).
#[derive(Clone, Debug)]
pub struct SuppressEntry {
    pub line: u32,
    pub rules: Vec<String>,
}

/// Suppression markers of one file, by target line (ascending).
#[derive(Clone, Debug)]
pub struct SuppressMarkers {
    pub entries: Vec<SuppressEntry>,
}

/// The most markers recorded per file.
pub const MAX_MARKERS: usize = 10_000;

/// The words of `ws` without repeats, each where it first occurs.
pub open spec fn distinct(ws: Seq<Seq<char>>) -> Seq<Seq<char>>
    decreases ws.len(),
{
    if ws.len() == 0 {
        ws
    } else {
        let d = distinct(ws.drop_last());
        if d.contains(ws.last()) {
            d
        } else {
            d.push(ws.last())
        }
    }
}

/// `distinct` keeps every word once and adds none.
pub proof fn lemma_distinct(ws: Seq<Seq<char>>)
    ensures
        distinct(ws).no_duplicates(),
        forall|w: Seq<char>| distinct(ws).contains(w) <==> ws.contains(w),
    decreases ws.len(),
{
    if ws.len() > 0 {
        lemma_distinct(ws.drop_last());
        assert forall|w: Seq<char>| ws.contains(w) <==> (ws.drop_last().contains(w) || w == ws.last()) by {
            if ws.contains(w) {
                let k = choose|k: int| 0 <= k < ws.len() && ws[k] == w;
                if k < ws.len() - 1 {
                    assert(ws.drop_last()[k] == w);
                }
            }
            if ws.drop_last().contains(w) {
                let k = choose|k: int| 0 <= k < ws.len() - 1 && ws.drop_last()[k] == w;
                assert(ws[k] == w);
            }
            if w == ws.last() {
                assert(ws[ws.len() - 1] == w);
            }
        }
        let d = distinct(ws.drop_last());
        if !d.contains(ws.last()) {
            let e = d.push(ws.last());
            assert forall|w: Seq<char>| e.contains(w) <==> (d.contains(w) || w == ws.last()) by {
                if e.contains(w) {
                    let k = choose|k: int| 0 <= k < e.len() && e[k] == w;
                    if k < d.len() {
                        assert(d[k] == w);
                    }
                }
                if d.contains(w) {
                    let k = choose|k: int| 0 <= k < d.len() && d[k] == w;
                    assert(e[k] == w);
                }
                if w == ws.last() {
                    assert(e[d.len() as int] == w);
                }
            }
            assert forall|a: int, c: int| 0 <= a < e.len() && 0 <= c < e.len() && a != c implies e[a] != e[c] by {
                if a < d.len() && c < d.len() {
                    assert(d[a] != d[c]);
                } else if a < d.len() {
                    assert(d[a] == e[a]);
                } else if c < d.len() {
                    assert(d[c] == e[c]);
                }
            }
        }
    }
}

/// The rule ids of a marker whose text after the marker word is `r`: its
/// words without repeats, or none (every rule) when one of them is `all`.
pub open spec fn marker_ids(r: Seq<char>) -> Seq<Seq<char>> {
    let ws = words_from(r, 0);
    if ws.contains("all"@) {
        seq![]
    } else {
        distinct(ws)
    }
}

/// Markers of `lines` (the first at 0-based line `base`), appended to `acc`:
/// each marker line contributes its following 1-based line number and its
/// rule ids; collection stops once more than `MAX_MARKERS` were found.
pub open spec fn markers_from(lines: Seq<Seq<char>>, base: int, acc: Seq<(int, Seq<Seq<char>>)>) -> Seq<(int, Seq<Seq<char>>)>
    decreases lines.len(),
{
    if lines.len() == 0 {
        acc
    } else {
        let acc2 = match marker_rest(lines[0]) {
            None => acc,
            Some(r) => acc.push((base + 2, marker_ids(r))),
        };
        if acc2.len() > MAX_MARKERS {
            acc2
        } else {
            markers_from(lines.drop_first(), base + 1, acc2)
        }
    }
}

/// Markers by line: the lines strictly ascending (one marker per line), and
/// no rule id twice in one marker.
pub open spec fn markers_wf(m: Seq<(int, Seq<Seq<char>>)>) -> bool {
    &&& forall|a: int, c: int| 0 <= a < c < m.len() ==> m[a].0 < m[c].0
    &&& forall|a: int| 0 <= a < m.len() ==> (#[trigger] m[a]).1.no_duplicates()
}

/// Collecting markers keeps them well-formed: every line found comes after
/// the lines already collected.
pub proof fn lemma_markers_wf(lines: Seq<Seq<char>>, base: int, acc: Seq<(int, Seq<Seq<char>>)>)
    requires
        markers_wf(acc),
        forall|a: int| 0 <= a < acc.len() ==> (#[trigger] acc[a]).0 < base + 2,
    ensures
        markers_wf(markers_from(lines, base, acc)),
    decreases lines.len(),
{
    if lines.len() > 0 {
        let acc2 = match marker_rest(lines[0]) {
            None => acc,
            Some(r) => acc.push((base + 2, marker_ids(r))),
        };
        match marker_rest(lines[0]) {
            None => {},
            Some(r) => {
                lemma_distinct(words_from(r, 0));
                assert(marker_ids(r).no_duplicates());
                assert(acc2[acc.len() as int].1 == marker_ids(r));
                assert forall|a: int| 0 <= a < acc2.len() implies (#[trigger] acc2[a]).1.no_duplicates() by {
                    if a < acc.len() {
                        assert(acc2[a] == acc[a]);
                    }
                }
            },
        }
        if acc2.len() <= MAX_MARKERS {
            lemma_markers_wf(lines.drop_first(), base + 1, acc2);
        }
    }
}

proof fn lemma_markers_from(lines: Seq<Seq<char>>, base: int, acc: Seq<(int, Seq<Seq<char>>)>)
    ensures
        ({
            let m = markers_from(lines, base, acc);
            &&& acc.len() <= m.len()
            &&& forall|i: int| 0 <= i < acc.len() ==> #[trigger] m[i] == acc[i]
            &&& forall|i: int|
                acc.len() <= i < m.len() ==> {
                    let j = (#[trigger] m[i]).0 - base - 2;
                    &&& 0 <= j < lines.len()
                    &&& marker_rest(lines[j]) is Some
                    &&& m[i].1 == marker_ids(marker_rest(lines[j]).unwrap())
                }
            &&& m.len() <= MAX_MARKERS ==> forall|j: int|
                0 <= j < lines.len() && (#[trigger] marker_rest(lines[j])) is Some ==> exists|i: int|
                    acc.len() <= i < m.len() && (#[trigger] m[i]).0 == base + j + 2
        }),
    decreases lines.len(),
{
    if lines.len() > 0 {
        let acc2 = match marker_rest(lines[0]) {
            None => acc,
            Some(r) => acc.push((base + 2, marker_ids(r))),
        };
        let m = markers_from(lines, base, acc);
        if acc2.len() > MAX_MARKERS {
            assert(m == acc2);
            assert forall|i: int| 0 <= i < acc.len() implies #[trigger] m[i] == acc[i] by {}
        } else {
            let rest = lines.drop_first();
            lemma_markers_from(rest, base + 1, acc2);
            assert(m == markers_from(rest, base + 1, acc2));
            assert forall|i: int| 0 <= i < acc.len() implies #[trigger] m[i] == acc[i] by {
                assert(m[i] == acc2[i]);
            }
            assert forall|i: int| acc.len() <= i < m.len() implies {
                let j = (#[trigger] m[i]).0 - base - 2;
                &&& 0 <= j < lines.len()
                &&& marker_rest(lines[j]) is Some
                &&& m[i].1 == marker_ids(marker_rest(lines[j]).unwrap())
            } by {
                if i < acc2.len() {
                    assert(m[i] == acc2[i]);
                } else {
                    let j2 = m[i].0 - (base + 1) - 2;
                    assert(rest[j2] == lines[j2 + 1]);
                }
            }
            if m.len() <= MAX_MARKERS {
                assert forall|j: int| 0 <= j < lines.len() && (#[trigger] marker_rest(lines[j])) is Some implies exists|i: int|
                    acc.len() <= i < m.len() && (#[trigger] m[i]).0 == base + j + 2 by {
                    if j == 0 {
                        assert(m[acc.len() as int] == acc2[acc.len() as int]);
                    } else {
                        assert(rest[j - 1] == lines[j]);
                        assert(marker_rest(rest[j - 1]) is Some);
                        let i = choose|i: int| acc2.len() <= i < m.len() && (#[trigger] m[i]).0 == base + 1 + (j - 1) + 2;
                        assert(acc.len() <= i < m.len() && m[i].0 == base + j + 2);
                    }
                }
            }
        }
    }
}

/// The markers of a source are its marker lines: each marks the line after
/// a marker line (1-based) with that line's rule ids, and while no more than
/// `MAX_MARKERS` were found, every marker line gives one.
pub proof fn law_markers_are_marker_lines(source: Seq<char>)
    ensures
        ({
            let ls = lines_from(source, 0);
            let m = markers_from(ls, 0, seq![]);
            &&& forall|i: int|
                0 <= i < m.len() ==> {
                    let j = (#[trigger] m[i]).0 - 2;
                    &&& 0 <= j < ls.len()
                    &&& marker_rest(ls[j]) is Some
                    &&& m[i].1 == marker_ids(marker_rest(ls[j]).unwrap())
                }
            &&& m.len() <= MAX_MARKERS ==> forall|j: int|
                0 <= j < ls.len() && (#[trigger] marker_rest(ls[j])) is Some ==> exists|i: int|
                    0 <= i < m.len() && (#[trigger] m[i]).0 == j + 2
        }),
{
    lemma_markers_from(lines_from(source, 0), 0, seq![]);
}

impl SuppressMarkers {
    pub open spec fn spec_view(self) -> Seq<(int, Seq<Seq<char>>)> {
        self.entries@.map_values(
            |e: SuppressEntry| (e.line as int, crate::text::views(e.rules@)),
        )
    }

    /// One marker per line, in ascending line order, each naming a rule at
    /// most once.
    pub open spec fn wf(self) -> bool {
        markers_wf(self.spec_view())
    }

    /// Number of marked lines.
    pub fn len(&self) -> (r: usize)
        ensures
            r == self.entries@.len(),
    {
        self.entries.len()
    }
}

/// Character-wise prefix test of `v[i..end]` against `w`.
fn has_prefix_at(v: &Vec<char>, i: usize, end: usize, w: &Vec<char>) -> (r: bool)
    requires
        i <= end <= v.len(),
    ensures
        r == (end - i >= w@.len() && v@.subrange(i as int, i + w@.len()) == w@),
{
    if end - i < w.len() {
        return false;
    }
    let mut k: usize = 0;
    while k < w.len()
        invariant
            i <= end <= v.len(),
            end - i >= w.len(),
            k <= w.len(),
            forall|j: int| 0 <= j < k ==> v@[i + j] == w@[j],
        decreases w.len() - k,
    {
        if v[i + k] != w[k] {
            assert(v@.subrange(i as int, i + w@.len())[k as int] != w@[k as int]);
            return false;
        }
        k = k + 1;
    }
    assert(v@.subrange(i as int, i + w@.len()) =~= w@);
    true
}

fn skip_ws_exec(v: &Vec<char>, i: usize, end: usize) -> (r: usize)
    requires
        i <= end <= v.len(),
    ensures
        r == i + skip_while_ws(v@.subrange(i as int, end as int), 0),
        i <= r <= end,
{
    let ghost sub = v@.subrange(i as int, end as int);
    let mut j = i;
    while j < end && is_whitespace(v[j])
        invariant
            i <= j <= end <= v.len(),
            sub == v@.subrange(i as int, end as int),
            skip_while_ws(sub, 0) == skip_while_ws(sub, j - i),
        decreases end - j,
    {
        j = j + 1;
    }
    j
}

/// Is `c` a separator between rule ids?
fn sep_char(c: char) -> (r: bool)
    ensures
        r == is_sep(c),
{
    c == ',' || is_whitespace(c)
}

/// The rule ids in `v[lo..hi]`.
fn words_exec(v: &Vec<char>, lo: usize, hi: usize) -> (r: Vec<String>)
    requires
        lo <= hi <= v.len(),
    ensures
        crate::text::views(r@) == words_from(v@.subrange(lo as int, hi as int), 0),
{
    let ghost s = v@.subrange(lo as int, hi as int);
    let mut out: Vec<String> = Vec::new();
    let mut i = lo;
    proof {
        lemma_skip_bounds(s, 0);
    }
    while i < hi
        invariant
            lo <= i <= hi <= v.len(),
            s == v@.subrange(lo as int, hi as int),
            words_from(s, 0) == crate::text::views(out@) + words_from(s, i - lo),
        decreases hi - i,
    {
        let ghost i0 = i;
        proof {
            lemma_skip_bounds(s, i - lo);
        }
        let mut j = i;
        while j < hi && sep_char(v[j])
            invariant
                i <= j <= hi <= v.len(),
                lo <= i,
                s == v@.subrange(lo as int, hi as int),
                skip_seps(s, i - lo) == skip_seps(s, j - lo),
            decreases hi - j,
        {
            j = j + 1;
        }
        if j >= hi {
            assert(words_from(s, i - lo) == Seq::<Seq<char>>::empty());
            i = hi;
            assert(words_from(s, 0) == crate::text::views(out@));
        } else {
            let mut k = j;
            while k < hi && !sep_char(v[k])
                invariant
                    j <= k <= hi <= v.len(),
                    lo <= j,
                    s == v@.subrange(lo as int, hi as int),
                    word_end(s, j - lo) == word_end(s, k - lo),
                decreases hi - k,
            {
                k = k + 1;
            }
            let w = crate::text::string_from_chars(v, j, k);
            proof {
                assert(w@ == s.subrange(j - lo, k - lo));
                lemma_skip_bounds(s, j - lo);
            }
            let ghost before = out@;
            out.push(w);
            assert(crate::text::views(out@) == crate::text::views(before).push(w@));
            assert(words_from(s, i0 - lo) == seq![s.subrange(j - lo, k - lo)] + words_from(s, k - lo));
            assert(crate::text::views(before) + words_from(s, i0 - lo) == crate::text::views(out@) + words_from(s, k - lo));
            i = k;
        }
    }
    proof {
        if i == hi {
            assert(words_from(s, hi - lo) == Seq::<Seq<char>>::empty()) by {
                lemma_skip_bounds(s, hi - lo);
            }
        }
    }
    assert(crate::text::views(out@) + Seq::<Seq<char>>::empty() == crate::text::views(out@));
    out
}

/// The rule ids of a marker from its words (see `marker_ids`).
fn marker_ids_exec(ws: &Vec<String>) -> (r: Vec<String>)
    ensures
        crate::text::views(r@) == (if crate::text::views(ws@).contains("all"@) {
            seq![]
        } else {
            distinct(crate::text::views(ws@))
        }),
{
    let ghost w = crate::text::views(ws@);
    let mut out: Vec<String> = Vec::new();
    let mut i: usize = 0;
    assert(w.take(0) =~= Seq::<Seq<char>>::empty());
    assert(crate::text::views(out@) =~= Seq::<Seq<char>>::empty());
    while i < ws.len()
        invariant
            i <= ws@.len(),
            w == crate::text::views(ws@),
            crate::text::views(out@) == distinct(w.take(i as int)),
            forall|q: int| 0 <= q < i ==> w[q] != "all"@,
        decreases ws.len() - i,
    {
        if crate::text::str_eq(ws[i].as_str(), "all") {
            assert(w[i as int] == "all"@);
            assert(w.contains("all"@));
            return Vec::new();
        }
        let ghost before = crate::text::views(out@);
        let mut found = false;
        let mut j: usize = 0;
        while j < out.len()
            invariant
                j <= out@.len(),
                i < ws@.len(),
                before == crate::text::views(out@),
                found == exists|q: int| 0 <= q < j && before[q] == ws@[i as int]@,
            decreases out.len() - j,
        {
            assert(before[j as int] == out@[j as int]@);
            if !found && crate::text::str_eq(out[j].as_str(), ws[i].as_str()) {
                found = true;
            }
            j = j + 1;
        }
        assert(w.take(i + 1).drop_last() =~= w.take(i as int));
        assert(w.take(i + 1).last() == ws@[i as int]@);
        assert(found == before.contains(ws@[i as int]@));
        if !found {
            out.push(ws[i].clone());
            assert(crate::text::views(out@) =~= before.push(ws@[i as int]@));
        }
        i = i + 1;
    }
    assert(w.take(ws@.len() as int) =~= w);
    proof {
        if w.contains("all"@) {
            let q = choose|q: int| 0 <= q < w.len() && w[q] == "all"@;
            assert(false);
        }
    }
    out
}

/// The marker ids of the line `v[p..end]`, if it is a marker line.
fn line_marker(v: &Vec<char>, p: usize, end: usize, key: &Vec<char>) -> (r: Option<Vec<String>>)
    requires
        p <= end <= v.len(),
        key@ == marker_word(),
    ensures
        match marker_rest(v@.subrange(p as int, end as int)) {
            None => r is None,
            Some(rest) => r matches Some(ids) && crate::text::views(ids@) == marker_ids(rest),
        },
{
    let ghost s = v@;
    let ghost line = s.subrange(p as int, end as int);
    let t = skip_ws_exec(v, p, end);
    assert(trim_start(line) =~= s.subrange(t as int, end as int));
    let rest_start: Option<usize> = if t < end && v[t] == '#' {
        Some(t + 1)
    } else if t < end && end - t > 1 && v[t] == '/' && v[t + 1] == '/' {
        Some(t + 2)
    } else {
        None
    };
    match rest_start {
        Some(rs) => {
            assert(after_comment(trim_start(line)) == Some(s.subrange(rs as int, end as int)));
            let r2 = skip_ws_exec(v, rs, end);
            let ghost r = s.subrange(r2 as int, end as int);
            assert(trim_start(s.subrange(rs as int, end as int)) =~= r);
            if has_prefix_at(v, r2, end, key) {
                let from = r2 + key.len();
                assert(r.subrange(0, marker_word().len() as int) =~= s.subrange(r2 as int, from as int));
                assert(r.skip(marker_word().len() as int) =~= s.subrange(from as int, end as int));
                let ws = words_exec(v, from, end);
                Some(marker_ids_exec(&ws))
            } else {
                proof {
                    if r.len() >= marker_word().len() {
                        assert(r.subrange(0, marker_word().len() as int) =~= s.subrange(r2 as int, r2 + marker_word().len()));
                    }
                }
                None
            }
        },
        None => {
            assert(after_comment(trim_start(line)) is None);
            None
        },
    }
}

/// One step of the marker collection over `lines_from`.
proof fn lemma_markers_step(s: Seq<char>, p: int, k: int, end: int, base: int, acc: Seq<(int, Seq<Seq<char>>)>)
    requires
        0 <= p < s.len(),
        k == index_of_nl(s, p),
        end == if k < s.len() && k > p && s[k - 1] == '\r' { k - 1 } else { k },
    ensures
        ({
            let line = s.subrange(p, end);
            let acc2 = match marker_rest(line) {
                None => acc,
                Some(r) => acc.push((base + 2, marker_ids(r))),
            };
            markers_from(lines_from(s, p), base, acc) == if acc2.len() > MAX_MARKERS {
                acc2
            } else if k < s.len() {
                markers_from(lines_from(s, k + 1), base + 1, acc2)
            } else {
                acc2
            }
        }),
{
    lemma_index_of_nl(s, p);
    let line = s.subrange(p, end);
    let ls = lines_from(s, p);
    let acc2 = match marker_rest(line) {
        None => acc,
        Some(r) => acc.push((base + 2, marker_ids(r))),
    };
    if k < s.len() {
        assert(strip_cr(s.subrange(p, k)) =~= line);
        assert(ls == seq![line] + lines_from(s, k + 1));
        assert(ls[0] == line);
        assert(ls.drop_first() =~= lines_from(s, k + 1));
    } else {
        assert(ls == seq![s.subrange(p, s.len() as int)]);
        assert(ls[0] == line);
        assert(ls.drop_first() =~= Seq::<Seq<char>>::empty());
        assert(markers_from(ls.drop_first(), base + 1, acc2) == acc2);
    }
    assert(markers_from(ls, base, acc) == if acc2.len() > MAX_MARKERS {
        acc2
    } else {
        markers_from(ls.drop_first(), base + 1, acc2)
    });
}

/// Scan `source` for suppression markers. Generic across domains: a comment
/// line (starting with `#` or `//` after indentation) holding
/// `omni-lint-disable-next-line` and optional comma- or space-separated
/// rule ids suppresses findings on the following line. `all` suppresses every
/// rule: it makes the marker's id list empty, as no id at all does. Returns
/// the markers by 1-based target line.
pub fn parse_suppress_markers(source: &str) -> (r: SuppressMarkers)
    requires
        source@.len() < 0xFFFF_FFF0,
    ensures
        r.spec_view() == markers_from(lines_from(source@, 0), 0, seq![]),
        r.wf(),
{
    proof {
        lemma_markers_wf(lines_from(source@, 0), 0, seq![]);
    }
    let v = chars_of(source);
    let key = chars_of("omni-lint-disable-next-line");
    let ghost s = source@;
    let ghost goal = markers_from(lines_from(s, 0), 0, seq![]);
    let mut out: Vec<SuppressEntry> = Vec::new();
    assert((SuppressMarkers { entries: out }).spec_view() =~= Seq::<(int, Seq<Seq<char>>)>::empty());
    let mut p: usize = 0;
    let mut idx: usize = 0;
    while p < v.len()
        invariant
            v@ == s,
            key@ == marker_word(),
            s.len() < 0xFFFF_FFF0,
            idx <= p <= v.len(),
            s == source@,
            goal == markers_from(lines_from(s, 0), 0, seq![]),
            markers_wf(goal),
            out@.len() <= MAX_MARKERS,
            goal == markers_from(lines_from(s, p as int), idx as int, (SuppressMarkers { entries: out }).spec_view()),
        decreases v.len() - p,
    {
        let ghost acc = (SuppressMarkers { entries: out }).spec_view();
        let mut k = p;
        while k < v.len() && v[k] != '\n'
            invariant
                p <= k <= v.len(),
                v@ == s,
                index_of_nl(s, p as int) == index_of_nl(s, k as int),
            decreases v.len() - k,
        {
            k = k + 1;
        }
        let end = if k < v.len() && k > p && v[k - 1] == '\r' { k - 1 } else { k };
        proof {
            lemma_markers_step(s, p as int, k as int, end as int, idx as int, acc);
        }
        let found = line_marker(&v, p, end, &key);
        let mut stop = false;
        match found {
            Some(ids) => {
                out.push(SuppressEntry { line: (idx + 2) as u32, rules: ids });
                if out.len() > MAX_MARKERS {
                    stop = true;
                }
            },
            None => {},
        }
        assert((SuppressMarkers { entries: out }).spec_view() =~= match marker_rest(s.subrange(p as int, end as int)) {
            None => acc,
            Some(r) => acc.push((idx + 2, marker_ids(r))),
        });
        assert((SuppressMarkers { entries: out }).spec_view().len() == out@.len());
        if stop {
            let ghost acc2 = (SuppressMarkers { entries: out }).spec_view();
            assert(acc2.len() > MAX_MARKERS);
            assert(markers_from(lines_from(s, p as int), idx as int, acc) == acc2);
            return SuppressMarkers { entries: out };
        }
        if k < v.len() {
            p = k + 1;
            idx = idx + 1;
        } else {
            p = v.len();
            idx = idx + 1;
            assert(lines_from(s, p as int) =~= Seq::<Seq<char>>::empty());
        }
    }
    assert(lines_from(s, p as int) =~= Seq::<Seq<char>>::empty());
    SuppressMarkers { entries: out }
}

/// The marker suppresses `rule`: it names no rule, or this one.
pub open spec fn suppresses(e: SuppressEntry, rule: Seq<char>) -> bool {
    e.rules@.len() == 0 || exists|j: int| 0 <= j < e.rules@.len() && e.rules@[j]@ == rule
}

/// Is a finding on `line` suppressed for `rule_id`? Decided by the first
/// marker for that line.
pub fn is_suppressed(line: u32, rule_id: &str, markers: &SuppressMarkers) -> (r: bool)
    ensures
        r == exists|i: int|
            0 <= i < markers.entries@.len() && (#[trigger] markers.entries@[i]).line == line && (
            forall|j: int| 0 <= j < i ==> markers.entries@[j].line != line) && suppresses(
                markers.entries@[i],
                rule_id@,
            ),
{
    let mut i: usize = 0;
    while i < markers.entries.len()
        invariant
            i <= markers.entries@.len(),
            forall|j: int| 0 <= j < i ==> markers.entries@[j].line != line,
        decreases markers.entries.len() - i,
    {
        let e = &markers.entries[i];
        if e.line == line {
            if e.rules.len() == 0 {
                assert(markers.entries@[i as int].line == line);
                assert(suppresses(markers.entries@[i as int], rule_id@));
                return true;
            }
            let mut j: usize = 0;
            while j < e.rules.len()
                invariant
                    i < markers.entries@.len(),
                    *e == markers.entries@[i as int],
                    e.line == line,
                    forall|q: int| 0 <= q < i ==> markers.entries@[q].line != line,
                    j <= e.rules@.len(),
                    forall|q: int| 0 <= q < j ==> e.rules@[q]@ != rule_id@,
                decreases e.rules.len() - j,
            {
                if crate::text::str_eq(e.rules[j].as_str(), rule_id) {
                    assert(markers.entries@[i as int].line == line);
                    assert(e.rules@[j as int]@ == rule_id@);
                    assert(suppresses(markers.entries@[i as int], rule_id@));
                    return true;
                }
                j = j + 1;
            }
            proof {
                assert forall|i2: int|
                    0 <= i2 < markers.entries@.len() && (#[trigger] markers.entries@[i2]).line == line && (
                    forall|j2: int| 0 <= j2 < i2 ==> markers.entries@[j2].line != line) implies !suppresses(
                        markers.entries@[i2],
                        rule_id@,
                    ) by {
                    if i2 != i {
                        if i2 < i {
                        } else {
                            assert(markers.entries@[i as int].line == line);
                        }
                    }
                }
            }
            return false;
        }
        i = i + 1;
    }
    false
}

} // verus!
