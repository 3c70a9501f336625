//! The library store: the titles a reader tracks and the titles read most
//! recently, with the merge, dedup and eviction rules that keep them sound.
use std::collections::VecDeque;

use vstd::prelude::*;

use crate::text::{is_prefix, starts_with};

verus! {

/// How many titles the recency list keeps.
pub const RECENT_CAP: usize = 10;

/// A title in the library: its name (the identity key), the address of its
/// series index page, and the last chapter reached.
#[derive(Debug, Clone, PartialEq, Eq)]
pub struct LN {
    pub name: String,
    pub url: String,
    pub last_chapter: usize,
}

impl LN {
    /// A copy of this entry.
    pub fn duplicate(&self) -> (r: LN)
        ensures
            r == *self,
    {
        LN { name: self.name.clone(), url: self.url.clone(), last_chapter: self.last_chapter }
    }
}

/// `k` is the position of the first entry named `name`.
pub open spec fn first_named(s: Seq<LN>, name: Seq<char>, k: int) -> bool {
    &&& 0 <= k < s.len()
    &&& s[k].name@ == name
    &&& forall|j: int| 0 <= j < k ==> s[j].name@ != name
}

pub open spec fn has_name(s: Seq<LN>, name: Seq<char>) -> bool {
    exists|i: int| 0 <= i < s.len() && s[i].name@ == name
}

/// The position of the first entry named `name`, if there is one.
pub open spec fn lookup(s: Seq<LN>, name: Seq<char>) -> Option<int> {
    if has_name(s, name) {
        Some(choose|k: int| first_named(s, name, k))
    } else {
        None
    }
}

/// No two entries share a name.
pub open spec fn unique_names(s: Seq<LN>) -> bool {
    forall|i: int, j: int|
        0 <= i < s.len() && 0 <= j < s.len() && i != j ==> s[i].name@ != s[j].name@
}

/// The first `n` entries, or all of them when there are fewer.
pub open spec fn capped(s: Seq<LN>, n: nat) -> Seq<LN> {
    if s.len() <= n {
        s
    } else {
        s.take(n as int)
    }
}

/// The recency list after `e` is read: an entry of the same name moves to
/// the front, replaced by `e` only where `e` reached a later chapter; a new
/// name goes to the front; then only the first `RECENT_CAP` entries stay.
pub open spec fn recorded(s: Seq<LN>, e: LN) -> Seq<LN> {
    let merged = match lookup(s, e.name@) {
        Some(k) => seq![if s[k].last_chapter < e.last_chapter { e } else { s[k] }] + s.remove(k),
        None => seq![e] + s,
    };
    capped(merged, RECENT_CAP as nat)
}

/// One step of folding a list into a list unique by name: a repeated name
/// keeps its first position and the entry with the later chapter (the
/// earlier one on a tie).
pub open spec fn fold_step(acc: Seq<LN>, x: LN) -> Seq<LN> {
    match lookup(acc, x.name@) {
        Some(k) => if acc[k].last_chapter < x.last_chapter {
            acc.update(k, x)
        } else {
            acc
        },
        None => acc.push(x),
    }
}

pub open spec fn folded(s: Seq<LN>) -> Seq<LN>
    decreases s.len(),
{
    if s.len() == 0 {
        s
    } else {
        fold_step(folded(s.drop_last()), s.last())
    }
}

/// The recency list as it is stored: folded by name, then capped.
pub open spec fn pruned(s: Seq<LN>) -> Seq<LN> {
    capped(folded(s), RECENT_CAP as nat)
}

/// The first entry of each name, in order.
pub open spec fn deduped(s: Seq<LN>) -> Seq<LN>
    decreases s.len(),
{
    if s.len() == 0 {
        s
    } else {
        let prev = deduped(s.drop_last());
        if has_name(prev, s.last().name@) {
            prev
        } else {
            prev.push(s.last())
        }
    }
}

/// The entries other than those named `name`, in order.
pub open spec fn without_name(s: Seq<LN>, name: Seq<char>) -> Seq<LN>
    decreases s.len(),
{
    if s.len() == 0 {
        s
    } else {
        let prev = without_name(s.drop_last(), name);
        if s.last().name@ == name {
            prev
        } else {
            prev.push(s.last())
        }
    }
}

/// An entry after chapter `chapter` of a page under `root` was read: its
/// last chapter rises to `chapter` where its address begins with `root`, and
/// never falls.
pub open spec fn bumped(x: LN, root: Seq<char>, chapter: nat) -> LN {
    if is_prefix(root, x.url@) && x.last_chapter < chapter {
        LN { name: x.name, url: x.url, last_chapter: chapter as usize }
    } else {
        x
    }
}

pub proof fn lemma_lookup_some(s: Seq<LN>, name: Seq<char>, k: int)
    requires
        first_named(s, name, k),
    ensures
        lookup(s, name) == Some(k),
{
    let c = choose|c: int| first_named(s, name, c);
    assert(first_named(s, name, c));
    if c < k {
        assert(s[c].name@ != name);
    } else if k < c {
        assert(s[k].name@ != name);
    }
}

pub proof fn lemma_lookup(s: Seq<LN>, name: Seq<char>)
    ensures
        match lookup(s, name) {
            Some(k) => first_named(s, name, k),
            None => !has_name(s, name),
        },
{
    if has_name(s, name) {
        let i = choose|i: int| 0 <= i < s.len() && s[i].name@ == name;
        let k = first_index(s, name, i);
        lemma_lookup_some(s, name, k);
    }
}

proof fn first_index(s: Seq<LN>, name: Seq<char>, i: int) -> (k: int)
    requires
        0 <= i < s.len(),
        s[i].name@ == name,
    ensures
        first_named(s, name, k),
    decreases i,
{
    if exists|j: int| 0 <= j < i && s[j].name@ == name {
        let j = choose|j: int| 0 <= j < i && s[j].name@ == name;
        first_index(s, name, j)
    } else {
        i
    }
}

/// The position of the first entry named `name` in `v`.
fn position_in(v: &VecDeque<LN>, name: &String) -> (r: Option<usize>)
    ensures
        match r {
            Some(k) => lookup(v@, name@) == Some(k as int),
            None => lookup(v@, name@) is None,
        },
{
    proof {
        lemma_lookup(v@, name@);
    }
    let n = v.len();
    let mut i: usize = 0;
    while i < n
        invariant
            n == v@.len(),
            i <= n,
            forall|j: int| 0 <= j < i ==> v@[j].name@ != name@,
        decreases n - i,
    {
        if v[i].name == *name {
            proof {
                lemma_lookup_some(v@, name@, i as int);
            }
            return Some(i);
        }
        i = i + 1;
    }
    None
}

/// Whether an entry of `v` is named `name`.
fn contains_name(v: &Vec<LN>, name: &String) -> (r: bool)
    ensures
        r == has_name(v@, name@),
{
    let n = v.len();
    let mut i: usize = 0;
    while i < n
        invariant
            n == v@.len(),
            i <= n,
            forall|j: int| 0 <= j < i ==> v@[j].name@ != name@,
        decreases n - i,
    {
        if v[i].name == *name {
            return true;
        }
        i = i + 1;
    }
    false
}

/// The persisted library: tracked titles, and the most recently read titles
/// with the most recent first.
#[derive(Debug, Clone)]
pub struct Data {
    tracked_novels: Vec<LN>,
    recent_novels: VecDeque<LN>,
}

impl Data {
    pub closed spec fn tracked_spec(&self) -> Seq<LN> {
        self.tracked_novels@
    }

    pub closed spec fn recent_spec(&self) -> Seq<LN> {
        self.recent_novels@
    }

    /// Both lists are unique by name, and the recency list holds at most
    /// `RECENT_CAP` entries.
    pub open spec fn wf(&self) -> bool {
        &&& unique_names(self.tracked_spec())
        &&& unique_names(self.recent_spec())
        &&& self.recent_spec().len() <= RECENT_CAP
    }

    /// An empty library.
    pub fn new() -> (r: Data)
        ensures
            r.tracked_spec() == Seq::<LN>::empty(),
            r.recent_spec() == Seq::<LN>::empty(),
            r.wf(),
    {
        Data { tracked_novels: Vec::new(), recent_novels: VecDeque::new() }
    }

    /// A library with the given lists, as they were read back.
    pub fn from_parts(tracked_list: Vec<LN>, recent: Vec<LN>) -> (r: Data)
        ensures
            r.tracked_spec() == tracked_list@,
            r.recent_spec() == recent@,
    {
        let mut deque: VecDeque<LN> = VecDeque::new();
        let n = recent.len();
        let mut i: usize = 0;
        while i < n
            invariant
                n == recent@.len(),
                i <= n,
                deque@ == recent@.take(i as int),
            decreases n - i,
        {
            deque.push_back(recent[i].duplicate());
            i = i + 1;
            assert(deque@ =~= recent@.take(i as int));
        }
        assert(recent@.take(n as int) =~= recent@);
        Data { tracked_novels: tracked_list, recent_novels: deque }
    }

    /// The tracked titles.
    pub fn tracked_novels(&self) -> (r: &Vec<LN>)
        ensures
            r@ == self.tracked_spec(),
    {
        &self.tracked_novels
    }

    /// The tracked titles, for changes in place.
    pub fn tracked_mut(&mut self) -> (r: &mut Vec<LN>)
        ensures
            r@ == old(self).tracked_spec(),
            final(self).tracked_spec() == final(r)@,
            final(self).recent_spec() == old(self).recent_spec(),
    {
        &mut self.tracked_novels
    }

    /// The recently read titles, most recent first.
    pub fn recent(&self) -> (r: &VecDeque<LN>)
        ensures
            r@ == self.recent_spec(),
    {
        &self.recent_novels
    }

    /// The recently read titles, for changes in place.
    pub fn recent_mut(&mut self) -> (r: &mut VecDeque<LN>)
        ensures
            r@ == old(self).recent_spec(),
            final(self).recent_spec() == final(r)@,
            final(self).tracked_spec() == old(self).tracked_spec(),
    {
        &mut self.recent_novels
    }

    /// Tracks `novel`, unless a title of the same name is tracked already.
    pub fn add_tracked(&mut self, novel: LN)
        ensures
            final(self).tracked_spec() == with_tracked(old(self).tracked_spec(), novel),
            final(self).recent_spec() == old(self).recent_spec(),
            old(self).wf() ==> final(self).wf(),
    {
        if contains_name(&self.tracked_novels, &novel.name) {
            return;
        }
        self.tracked_novels.push(novel);
    }

    /// Stops tracking the title named `name`; nothing changes if none is.
    pub fn remove_tracked(&mut self, name: &String)
        ensures
            final(self).tracked_spec() == without_name(old(self).tracked_spec(), name@),
            final(self).recent_spec() == old(self).recent_spec(),
            old(self).wf() ==> final(self).wf(),
    {
        let n = self.tracked_novels.len();
        let mut kept: Vec<LN> = Vec::new();
        let mut i: usize = 0;
        while i < n
            invariant
                n == self.tracked_novels@.len(),
                i <= n,
                kept@ == without_name(self.tracked_novels@.take(i as int), name@),
            decreases n - i,
        {
            let ghost before = self.tracked_novels@.take(i as int);
            assert(self.tracked_novels@.take(i + 1).drop_last() =~= before);
            if self.tracked_novels[i].name != *name {
                kept.push(self.tracked_novels[i].duplicate());
            }
            i = i + 1;
        }
        assert(self.tracked_novels@.take(n as int) =~= self.tracked_novels@);
        proof {
            lemma_without_name_unique(self.tracked_novels@, name@);
        }
        self.tracked_novels = kept;
    }
}

proof fn lemma_without_name_unique(s: Seq<LN>, name: Seq<char>)
    ensures
        unique_names(s) ==> unique_names(without_name(s, name)),
        forall|i: int|
            0 <= i < without_name(s, name).len() ==> exists|j: int|
                0 <= j < s.len() && s[j] == #[trigger] without_name(s, name)[i],
    decreases s.len(),
{
    if s.len() > 0 {
        let prev = without_name(s.drop_last(), name);
        lemma_without_name_unique(s.drop_last(), name);
        assert forall|i: int| 0 <= i < prev.len() implies exists|j: int|
            0 <= j < s.len() && s[j] == #[trigger] prev[i] by {
            let j = choose|j: int| 0 <= j < s.drop_last().len() && s.drop_last()[j] == prev[i];
            assert(s[j] == prev[i]);
        }
        if unique_names(s) {
            assert(unique_names(s.drop_last())) by {
                assert forall|a: int, b: int|
                    0 <= a < s.drop_last().len() && 0 <= b < s.drop_last().len() && a != b
                    implies s.drop_last()[a].name@ != s.drop_last()[b].name@ by {
                    assert(s.drop_last()[a] == s[a]);
                    assert(s.drop_last()[b] == s[b]);
                }
            }
            if s.last().name@ != name {
                let w = prev.push(s.last());
                assert forall|a: int, b: int| 0 <= a < w.len() && 0 <= b < w.len() && a != b
                    implies w[a].name@ != w[b].name@ by {
                    if a == prev.len() as int {
                        let j = choose|j: int| 0 <= j < s.len() && s[j] == #[trigger] prev[b];
                        assert(s.drop_last()[j] == prev[b]) by {
                            let jj = choose|jj: int|
                                0 <= jj < s.drop_last().len() && s.drop_last()[jj] == prev[b];
                            assert(s[jj] == prev[b]);
                        }
                    } else if b == prev.len() as int {
                        let jj = choose|jj: int|
                            0 <= jj < s.drop_last().len() && s.drop_last()[jj] == prev[a];
                        assert(s[jj] == prev[a]);
                        assert(jj != s.len() - 1);
                    }
                }
            }
        }
    }
}

proof fn lemma_unique_take(s: Seq<LN>, n: int)
    requires
        unique_names(s),
        0 <= n <= s.len(),
    ensures
        unique_names(s.take(n)),
{
    assert forall|a: int, b: int|
        0 <= a < s.take(n).len() && 0 <= b < s.take(n).len() && a != b implies s.take(n)[a].name@
        != s.take(n)[b].name@ by {
        assert(s.take(n)[a] == s[a]);
        assert(s.take(n)[b] == s[b]);
    }
}

proof fn lemma_capped(s: Seq<LN>, n: nat)
    ensures
        unique_names(s) ==> unique_names(capped(s, n)),
        capped(s, n).len() == if s.len() <= n { s.len() } else { n },
        forall|i: int| 0 <= i < capped(s, n).len() ==> #[trigger] capped(s, n)[i] == s[i],
{
    if s.len() > n && unique_names(s) {
        lemma_unique_take(s, n as int);
    }
}

/// The entry that stands first after `e` is recorded into `s`.
pub open spec fn front_after(s: Seq<LN>, e: LN) -> LN {
    match lookup(s, e.name@) {
        Some(k) => if s[k].last_chapter < e.last_chapter { e } else { s[k] },
        None => e,
    }
}

proof fn lemma_recorded_shape(s: Seq<LN>, e: LN)
    ensures
        recorded(s, e).len() == if has_name(s, e.name@) {
            if s.len() <= RECENT_CAP { s.len() } else { RECENT_CAP as nat }
        } else {
            if s.len() + 1 <= RECENT_CAP { s.len() + 1 } else { RECENT_CAP as nat }
        },
        recorded(s, e)[0] == front_after(s, e),
        unique_names(s) ==> unique_names(recorded(s, e)),
{
    lemma_lookup(s, e.name@);
    let merged = match lookup(s, e.name@) {
        Some(k) => seq![front_after(s, e)] + s.remove(k),
        None => seq![e] + s,
    };
    assert(recorded(s, e) == capped(merged, RECENT_CAP as nat));
    lemma_capped(merged, RECENT_CAP as nat);
    if unique_names(s) {
        match lookup(s, e.name@) {
            Some(k) => {
                let r = s.remove(k);
                assert forall|a: int, b: int|
                    0 <= a < merged.len() && 0 <= b < merged.len() && a != b implies merged[a].name@
                    != merged[b].name@ by {
                    if a == 0 {
                        assert(merged[b] == r[b - 1]);
                        if b - 1 < k {
                            assert(r[b - 1] == s[b - 1]);
                        } else {
                            assert(r[b - 1] == s[b]);
                        }
                    } else if b == 0 {
                        assert(merged[a] == r[a - 1]);
                        if a - 1 < k {
                            assert(r[a - 1] == s[a - 1]);
                        } else {
                            assert(r[a - 1] == s[a]);
                        }
                    } else {
                        assert(merged[a] == r[a - 1]);
                        assert(merged[b] == r[b - 1]);
                        let ia = if a - 1 < k { a - 1 } else { a };
                        let ib = if b - 1 < k { b - 1 } else { b };
                        assert(r[a - 1] == s[ia]);
                        assert(r[b - 1] == s[ib]);
                    }
                }
            },
            None => {
                assert forall|a: int, b: int|
                    0 <= a < merged.len() && 0 <= b < merged.len() && a != b implies merged[a].name@
                    != merged[b].name@ by {
                    if a == 0 {
                        assert(merged[b] == s[b - 1]);
                    } else if b == 0 {
                        assert(merged[a] == s[a - 1]);
                    } else {
                        assert(merged[a] == s[a - 1]);
                        assert(merged[b] == s[b - 1]);
                    }
                }
            },
        }
    }
}

/// Recording a title never lowers the chapter recorded for it: afterwards it
/// stands first, and its last chapter is the larger of the one recorded
/// before (if any) and the one just read.
pub proof fn lemma_recent_never_regresses(s: Seq<LN>, e: LN)
    ensures
        recorded(s, e).len() >= 1,
        recorded(s, e)[0].name@ == e.name@,
        recorded(s, e)[0].last_chapter >= e.last_chapter,
        forall|k: int|
            first_named(s, e.name@, k) ==> recorded(s, e)[0].last_chapter >= #[trigger] s[k].last_chapter,
{
    lemma_recorded_shape(s, e);
    lemma_lookup(s, e.name@);
    assert forall|k: int| first_named(s, e.name@, k) implies recorded(s, e)[0].last_chapter
        >= #[trigger] s[k].last_chapter by {
        lemma_lookup_some(s, e.name@, k);
    }
}

/// Recording keeps the recency list unique by name and within its cap; a new
/// name lengthens it by one until the cap is reached, and the title recorded
/// stands first.
pub proof fn lemma_recent_bounded(s: Seq<LN>, e: LN)
    requires
        unique_names(s),
    ensures
        unique_names(recorded(s, e)),
        recorded(s, e).len() <= RECENT_CAP,
        recorded(s, e)[0].name@ == e.name@,
        !has_name(s, e.name@) ==> recorded(s, e).len() == if s.len() < RECENT_CAP {
            s.len() + 1
        } else {
            RECENT_CAP as nat
        },
        has_name(s, e.name@) && s.len() <= RECENT_CAP ==> recorded(s, e).len() == s.len(),
{
    lemma_recorded_shape(s, e);
    lemma_lookup(s, e.name@);
}

/// The position of the first entry named `name` in `v`.
fn position_in_vec(v: &Vec<LN>, name: &String) -> (r: Option<usize>)
    ensures
        match r {
            Some(k) => lookup(v@, name@) == Some(k as int),
            None => lookup(v@, name@) is None,
        },
{
    proof {
        lemma_lookup(v@, name@);
    }
    let n = v.len();
    let mut i: usize = 0;
    while i < n
        invariant
            n == v@.len(),
            i <= n,
            forall|j: int| 0 <= j < i ==> v@[j].name@ != name@,
        decreases n - i,
    {
        if v[i].name == *name {
            proof {
                lemma_lookup_some(v@, name@, i as int);
            }
            return Some(i);
        }
        i = i + 1;
    }
    None
}

proof fn lemma_fold_step(acc: Seq<LN>, x: LN)
    requires
        unique_names(acc),
    ensures
        unique_names(fold_step(acc, x)),
{
    lemma_lookup(acc, x.name@);
    let r = fold_step(acc, x);
    match lookup(acc, x.name@) {
        Some(k) => {
            assert forall|a: int, b: int| 0 <= a < r.len() && 0 <= b < r.len() && a != b implies r[a].name@
                != r[b].name@ by {
                assert(r[a].name@ == acc[a].name@);
                assert(r[b].name@ == acc[b].name@);
            }
        },
        None => {
            assert forall|a: int, b: int| 0 <= a < r.len() && 0 <= b < r.len() && a != b implies r[a].name@
                != r[b].name@ by {
                if a < acc.len() && b < acc.len() {
                    assert(r[a] == acc[a]);
                    assert(r[b] == acc[b]);
                } else if a < acc.len() {
                    assert(r[a] == acc[a]);
                } else {
                    assert(r[b] == acc[b]);
                }
            }
        },
    }
}

proof fn lemma_folded_unique(s: Seq<LN>)
    ensures
        unique_names(folded(s)),
    decreases s.len(),
{
    if s.len() > 0 {
        lemma_folded_unique(s.drop_last());
        lemma_fold_step(folded(s.drop_last()), s.last());
    }
}

proof fn lemma_deduped_unique(s: Seq<LN>)
    ensures
        unique_names(deduped(s)),
    decreases s.len(),
{
    if s.len() > 0 {
        lemma_deduped_unique(s.drop_last());
        let prev = deduped(s.drop_last());
        if !has_name(prev, s.last().name@) {
            let r = prev.push(s.last());
            assert forall|a: int, b: int| 0 <= a < r.len() && 0 <= b < r.len() && a != b implies r[a].name@
                != r[b].name@ by {
                if a < prev.len() && b < prev.len() {
                    assert(r[a] == prev[a]);
                    assert(r[b] == prev[b]);
                } else if a < prev.len() {
                    assert(r[a] == prev[a]);
                } else {
                    assert(r[b] == prev[b]);
                }
            }
        }
    }
}

proof fn lemma_unique_drop_last(s: Seq<LN>)
    requires
        unique_names(s),
        s.len() > 0,
    ensures
        unique_names(s.drop_last()),
        !has_name(s.drop_last(), s.last().name@),
{
    assert forall|a: int, b: int|
        0 <= a < s.drop_last().len() && 0 <= b < s.drop_last().len() && a != b implies s.drop_last()[a].name@
        != s.drop_last()[b].name@ by {
        assert(s.drop_last()[a] == s[a]);
        assert(s.drop_last()[b] == s[b]);
    }
    if has_name(s.drop_last(), s.last().name@) {
        let i = choose|i: int| 0 <= i < s.drop_last().len() && s.drop_last()[i].name@ == s.last().name@;
        assert(s.drop_last()[i] == s[i]);
    }
}

proof fn lemma_unique_fixed(s: Seq<LN>)
    requires
        unique_names(s),
    ensures
        folded(s) == s,
        deduped(s) == s,
    decreases s.len(),
{
    if s.len() > 0 {
        lemma_unique_drop_last(s);
        lemma_unique_fixed(s.drop_last());
        lemma_lookup(s.drop_last(), s.last().name@);
        assert(s.drop_last().push(s.last()) =~= s);
    }
}

/// Normalising the stored form again changes nothing: what `save` writes
/// and `load` reads back is what `save` would write once more.
pub proof fn lemma_normalize_idempotent(tracked_list: Seq<LN>, recent_list: Seq<LN>)
    ensures
        deduped(deduped(tracked_list)) == deduped(tracked_list),
        pruned(pruned(recent_list)) == pruned(recent_list),
        unique_names(deduped(tracked_list)),
        unique_names(pruned(recent_list)),
        pruned(recent_list).len() <= RECENT_CAP,
{
    lemma_deduped_unique(tracked_list);
    lemma_unique_fixed(deduped(tracked_list));
    lemma_folded_unique(recent_list);
    let p = pruned(recent_list);
    lemma_capped(folded(recent_list), RECENT_CAP as nat);
    lemma_unique_fixed(p);
    lemma_capped(p, RECENT_CAP as nat);
    assert(capped(p, RECENT_CAP as nat) == p);
}

/// Copies of the entries of `v`, in order.
fn copy_entries(v: &Vec<LN>) -> (r: Vec<LN>)
    ensures
        r@ == v@,
{
    let n = v.len();
    let mut out: Vec<LN> = Vec::new();
    let mut i: usize = 0;
    while i < n
        invariant
            n == v@.len(),
            i <= n,
            out@ == v@.take(i as int),
        decreases n - i,
    {
        out.push(v[i].duplicate());
        i = i + 1;
        assert(out@ =~= v@.take(i as int));
    }
    assert(v@.take(n as int) =~= v@);
    out
}

impl Data {
    /// Reads `entry` into the recency list: see `recorded`.
    pub fn record_recent(&mut self, entry: LN)
        ensures
            final(self).recent_spec() == recorded(old(self).recent_spec(), entry),
            final(self).tracked_spec() == old(self).tracked_spec(),
            old(self).wf() ==> final(self).wf(),
    {
        proof {
            lemma_recorded_shape(self.recent_novels@, entry);
            lemma_lookup(self.recent_novels@, entry.name@);
        }
        let ghost s = self.recent_novels@;
        let k = position_in(&self.recent_novels, &entry.name);
        match k {
            Some(k) => {
                let found = self.recent_novels.remove(k);
                match found {
                    Some(o) => {
                        let kept = if o.last_chapter < entry.last_chapter {
                            entry
                        } else {
                            o
                        };
                        self.recent_novels.push_front(kept);
                    },
                    None => {},
                }
            },
            None => {
                self.recent_novels.push_front(entry);
            },
        }
        let ghost merged = self.recent_novels@;
        self.recent_novels.truncate(RECENT_CAP);
        assert(self.recent_novels@ == capped(merged, RECENT_CAP as nat));
    }

    /// Folds the recency list to one entry per name (first position, later
    /// chapter) and keeps the first `RECENT_CAP` of them.
    pub fn prune(&mut self)
        ensures
            final(self).recent_spec() == pruned(old(self).recent_spec()),
            final(self).tracked_spec() == old(self).tracked_spec(),
            unique_names(final(self).recent_spec()),
            final(self).recent_spec().len() <= RECENT_CAP,
    {
        let n = self.recent_novels.len();
        let mut acc: Vec<LN> = Vec::new();
        let mut i: usize = 0;
        while i < n
            invariant
                n == self.recent_novels@.len(),
                i <= n,
                acc@ == folded(self.recent_novels@.take(i as int)),
            decreases n - i,
        {
            let ghost before = self.recent_novels@.take(i as int);
            assert(self.recent_novels@.take(i + 1).drop_last() =~= before);
            let x = self.recent_novels[i].duplicate();
            let ghost acc0 = acc@;
            assert(self.recent_novels@.take(i + 1).last() == x);
            proof {
                lemma_lookup(acc@, x.name@);
            }
            match position_in_vec(&acc, &x.name) {
                Some(k) => {
                    assert(lookup(acc0, x.name@) == Some(k as int));
                    if acc[k].last_chapter < x.last_chapter {
                        acc.set(k, x);
                        assert(acc@ == fold_step(acc0, x));
                    } else {
                        assert(acc@ == fold_step(acc0, x));
                    }
                },
                None => {
                    acc.push(x);
                    assert(acc@ == fold_step(acc0, x));
                },
            }
            i = i + 1;
        }
        assert(self.recent_novels@.take(n as int) =~= self.recent_novels@);
        proof {
            lemma_normalize_idempotent(self.tracked_novels@, self.recent_novels@);
            lemma_capped(acc@, RECENT_CAP as nat);
        }
        let m = if acc.len() < RECENT_CAP {
            acc.len()
        } else {
            RECENT_CAP
        };
        let mut out: VecDeque<LN> = VecDeque::new();
        let mut j: usize = 0;
        while j < m
            invariant
                m <= acc@.len(),
                j <= m,
                out@ == acc@.take(j as int),
            decreases m - j,
        {
            out.push_back(acc[j].duplicate());
            j = j + 1;
            assert(out@ =~= acc@.take(j as int));
        }
        assert(out@ =~= capped(acc@, RECENT_CAP as nat));
        self.recent_novels = out;
    }

    /// Keeps the first tracked entry of each name.
    pub fn dedup_tracked(&mut self)
        ensures
            final(self).tracked_spec() == deduped(old(self).tracked_spec()),
            final(self).recent_spec() == old(self).recent_spec(),
            unique_names(final(self).tracked_spec()),
    {
        let n = self.tracked_novels.len();
        let mut kept: Vec<LN> = Vec::new();
        let mut i: usize = 0;
        while i < n
            invariant
                n == self.tracked_novels@.len(),
                i <= n,
                kept@ == deduped(self.tracked_novels@.take(i as int)),
            decreases n - i,
        {
            let ghost before = self.tracked_novels@.take(i as int);
            assert(self.tracked_novels@.take(i + 1).drop_last() =~= before);
            if !contains_name(&kept, &self.tracked_novels[i].name) {
                kept.push(self.tracked_novels[i].duplicate());
            }
            i = i + 1;
        }
        assert(self.tracked_novels@.take(n as int) =~= self.tracked_novels@);
        proof {
            lemma_deduped_unique(self.tracked_novels@);
        }
        self.tracked_novels = kept;
    }

    /// The form in which the library is written out: both lists deduplicated
    /// by name and the recency list capped, whatever was done in place.
    pub fn normalized(&self) -> (r: Data)
        ensures
            r.tracked_spec() == deduped(self.tracked_spec()),
            r.recent_spec() == pruned(self.recent_spec()),
            r.wf(),
    {
        let mut recent_list: Vec<LN> = Vec::new();
        let n = self.recent_novels.len();
        let mut i: usize = 0;
        while i < n
            invariant
                n == self.recent_novels@.len(),
                i <= n,
                recent_list@ == self.recent_novels@.take(i as int),
            decreases n - i,
        {
            recent_list.push(self.recent_novels[i].duplicate());
            i = i + 1;
            assert(recent_list@ =~= self.recent_novels@.take(i as int));
        }
        assert(self.recent_novels@.take(n as int) =~= self.recent_novels@);
        let mut r = Data::from_parts(copy_entries(&self.tracked_novels), recent_list);
        r.dedup_tracked();
        r.prune();
        r
    }

    /// Raises to `chapter` the last chapter of each tracked title whose
    /// address begins with `series_root`; no entry's chapter falls.
    pub fn record_chapter_progress(&mut self, series_root: &str, chapter: usize)
        ensures
            final(self).tracked_spec().len() == old(self).tracked_spec().len(),
            forall|i: int|
                0 <= i < old(self).tracked_spec().len() ==> #[trigger] final(self).tracked_spec()[i]
                    == bumped(old(self).tracked_spec()[i], series_root@, chapter as nat),
            final(self).recent_spec() == old(self).recent_spec(),
            old(self).wf() ==> final(self).wf(),
    {
        let n = self.tracked_novels.len();
        let mut out: Vec<LN> = Vec::new();
        let mut i: usize = 0;
        while i < n
            invariant
                n == self.tracked_novels@.len(),
                i <= n,
                out@.len() == i,
                forall|j: int|
                    0 <= j < i ==> #[trigger] out@[j] == bumped(
                        self.tracked_novels@[j],
                        series_root@,
                        chapter as nat,
                    ),
            decreases n - i,
        {
            let e = &self.tracked_novels[i];
            if starts_with(e.url.as_str(), series_root) && e.last_chapter < chapter {
                out.push(LN { name: e.name.clone(), url: e.url.clone(), last_chapter: chapter });
            } else {
                out.push(e.duplicate());
            }
            i = i + 1;
        }
        proof {
            if unique_names(self.tracked_novels@) {
                assert forall|a: int, b: int|
                    0 <= a < out@.len() && 0 <= b < out@.len() && a != b implies out@[a].name@
                    != out@[b].name@ by {
                    assert(out@[a].name == self.tracked_novels@[a].name);
                    assert(out@[b].name == self.tracked_novels@[b].name);
                }
            }
        }
        self.tracked_novels = out;
    }

    /// Records that chapter `chapter` of the title `name`, whose series index
    /// address is `index_url`, was read: the recency list takes the title,
    /// and tracked titles under that address advance to the chapter.
    pub fn record_visit(&mut self, name: String, index_url: String, chapter: usize)
        ensures
            final(self).recent_spec() == recorded(
                old(self).recent_spec(),
                LN { name: name, url: index_url, last_chapter: chapter },
            ),
            final(self).tracked_spec().len() == old(self).tracked_spec().len(),
            forall|i: int|
                0 <= i < old(self).tracked_spec().len() ==> #[trigger] final(self).tracked_spec()[i]
                    == bumped(old(self).tracked_spec()[i], index_url@, chapter as nat),
            old(self).wf() ==> final(self).wf(),
    {
        let root = index_url.clone();
        self.record_recent(LN { name, url: index_url, last_chapter: chapter });
        self.record_chapter_progress(root.as_str(), chapter);
    }
}

/// The tracked list after `e` is offered to it: unchanged where a title of
/// the same name is tracked, else `e` is appended.
pub open spec fn with_tracked(s: Seq<LN>, e: LN) -> Seq<LN> {
    if has_name(s, e.name@) {
        s
    } else {
        s.push(e)
    }
}

/// Offering a title of the same name a second time leaves the tracked list
/// as the first offer left it.
pub proof fn lemma_add_tracked_twice(s: Seq<LN>, first: LN, second: LN)
    requires
        first.name@ == second.name@,
    ensures
        with_tracked(with_tracked(s, first), second) == with_tracked(s, first),
        with_tracked(with_tracked(s, first), second).len() == with_tracked(s, first).len(),
{
    let t = with_tracked(s, first);
    if !has_name(s, first.name@) {
        assert(t[s.len() as int] == first);
    }
    assert(has_name(t, second.name@));
}

/// Recording the same title twice, the second time with an earlier chapter,
/// keeps the later chapter: the title stands first with the larger of the
/// two chapters or more.
pub proof fn lemma_recent_twice(s: Seq<LN>, first: LN, second: LN)
    requires
        first.name@ == second.name@,
    ensures
        recorded(recorded(s, first), second)[0].name@ == first.name@,
        recorded(recorded(s, first), second)[0].last_chapter >= first.last_chapter,
        recorded(recorded(s, first), second)[0].last_chapter >= second.last_chapter,
{
    let t = recorded(s, first);
    lemma_recent_never_regresses(s, first);
    lemma_recent_never_regresses(t, second);
    assert(first_named(t, second.name@, 0));
}

} // verus!
