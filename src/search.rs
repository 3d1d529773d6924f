//! The memo store and the searches over it, with their set algebra.
use vstd::prelude::*;
use crate::entry::{
    entry_matches, key_compiles, key_pattern, search_pattern, MatchCondition, MemoEntry,
    MemoEntryView,
};
use crate::error::MemoError;
use crate::pattern::Pattern;
use crate::text::same_text;

verus! {

/// What a `Memo` or a `MemoSearch` holds: its root and its entries in order.
pub struct SearchView {
    pub root: Seq<char>,
    pub entries: Seq<MemoEntryView>,
}

/// Whether some entry of `s` has the path `p`.
pub open spec fn has_path(s: Seq<MemoEntryView>, p: Seq<char>) -> bool {
    exists|i: int| 0 <= i < s.len() && s[i].full_path == p
}

/// `a`, then each entry of `b` whose path is not there yet, in `b`'s order.
pub open spec fn union_entries(a: Seq<MemoEntryView>, b: Seq<MemoEntryView>) -> Seq<
    MemoEntryView,
>
    decreases b.len(),
{
    if b.len() == 0 {
        a
    } else {
        let next = if has_path(a, b[0].full_path) {
            a
        } else {
            a.push(b[0])
        };
        union_entries(next, b.drop_first())
    }
}

/// The entries of `a` whose path is not in `b`, in `a`'s order.
pub open spec fn difference_entries(a: Seq<MemoEntryView>, b: Seq<MemoEntryView>) -> Seq<
    MemoEntryView,
> {
    a.filter(|e: MemoEntryView| !has_path(b, e.full_path))
}

/// The entries of `a` whose path is in `b`, in `a`'s order.
pub open spec fn intersection_entries(a: Seq<MemoEntryView>, b: Seq<MemoEntryView>) -> Seq<
    MemoEntryView,
> {
    a.filter(|e: MemoEntryView| has_path(b, e.full_path))
}

/// The entries of `s` that a search for `key` keeps, in order.
pub open spec fn matching_entries(
    s: Seq<MemoEntryView>,
    key: Seq<char>,
    is_tag: bool,
    condition: MatchCondition,
) -> Seq<MemoEntryView> {
    s.filter(|e: MemoEntryView| entry_matches(e, key, is_tag, condition))
}

/// The entries of `s` at the positions where `keep` holds, in order.
pub open spec fn select_entries(s: Seq<MemoEntryView>, keep: Seq<bool>) -> Seq<MemoEntryView>
    decreases s.len(),
{
    if s.len() == 0 {
        s
    } else {
        let head = select_entries(s.drop_last(), keep.subrange(0, s.len() - 1));
        if keep[s.len() - 1] {
            head.push(s.last())
        } else {
            head
        }
    }
}

/// What a search for `key_pair` over `s` gives: everything when there is no
/// key.
pub open spec fn find_entries(
    s: Seq<MemoEntryView>,
    key_pair: Option<(Seq<char>, bool, MatchCondition)>,
) -> Seq<MemoEntryView> {
    match key_pair {
        None => s,
        Some((key, is_tag, condition)) => matching_entries(s, key, is_tag, condition),
    }
}

/// Whether the key of a search compiles; no key always does.
pub open spec fn find_compiles(key_pair: Option<(Seq<char>, bool, MatchCondition)>) -> bool {
    match key_pair {
        None => true,
        Some((key, _, condition)) => key_compiles(key, condition),
    }
}

pub open spec fn key_pair_view(key_pair: Option<(&str, bool, MatchCondition)>) -> Option<
    (Seq<char>, bool, MatchCondition),
> {
    match key_pair {
        None => None,
        Some((key, is_tag, condition)) => Some((key@, is_tag, condition)),
    }
}

proof fn lemma_filter_step(
    s: Seq<MemoEntryView>,
    i: int,
    pred: spec_fn(MemoEntryView) -> bool,
)
    requires
        0 <= i < s.len(),
    ensures
        s.subrange(0, i + 1).filter(pred) == if pred(s[i]) {
            s.subrange(0, i).filter(pred).push(s[i])
        } else {
            s.subrange(0, i).filter(pred)
        },
{
    reveal(Seq::filter);
    assert(s.subrange(0, i + 1).drop_last() =~= s.subrange(0, i));
}

proof fn lemma_select_step(s: Seq<MemoEntryView>, keep: Seq<bool>, i: int)
    requires
        0 <= i < s.len(),
        i < keep.len(),
    ensures
        select_entries(s.subrange(0, i + 1), keep.subrange(0, i + 1)) == if keep[i] {
            select_entries(s.subrange(0, i), keep.subrange(0, i)).push(s[i])
        } else {
            select_entries(s.subrange(0, i), keep.subrange(0, i))
        },
{
    assert(s.subrange(0, i + 1).drop_last() =~= s.subrange(0, i));
    assert(keep.subrange(0, i + 1).subrange(0, i) =~= keep.subrange(0, i));
}

/// The views of a sequence of entries.
pub open spec fn views_of(v: Seq<&MemoEntry>) -> Seq<MemoEntryView> {
    v.map_values(|e: &MemoEntry| e@)
}

/// The memo store: every entry loaded from the storage root.
pub struct Memo {
    entries: Vec<MemoEntry>,
    root: String,
}

impl View for Memo {
    type V = SearchView;

    closed spec fn view(&self) -> SearchView {
        SearchView { root: self.root@, entries: self.entries@.map_values(|e: MemoEntry| e@) }
    }
}

/// The result of a search: entries of one store, in order, with its root.
#[derive(Debug)]
pub struct MemoSearch<'a> {
    entries: Vec<&'a MemoEntry>,
    root: &'a str,
}

impl<'a> View for MemoSearch<'a> {
    type V = SearchView;

    closed spec fn view(&self) -> SearchView {
        SearchView { root: self.root@, entries: views_of(self.entries@) }
    }
}

/// Whether some entry of `v` has the path of `e`.
fn contains_path(v: &Vec<&MemoEntry>, e: &MemoEntry) -> (r: bool)
    ensures
        r == has_path(views_of(v@), e@.full_path),
{
    let mut i: usize = 0;
    while i < v.len()
        invariant
            i <= v@.len(),
            forall|j: int| 0 <= j < i ==> views_of(v@)[j].full_path != e@.full_path,
        decreases v@.len() - i,
    {
        if same_text(v[i].full_path(), e.full_path()) {
            assert(views_of(v@)[i as int].full_path == e@.full_path);
            return true;
        }
        i += 1;
    }
    false
}

impl Memo {
    /// The entry at position `i`.
    pub closed spec fn entry(&self, i: int) -> &MemoEntry {
        &self.entries@[i]
    }

    /// A store of `entries` under `root`.
    pub fn new(root: &str, entries: Vec<MemoEntry>) -> (r: Memo)
        ensures
            r@.root == root@,
            r@.entries == entries@.map_values(|e: MemoEntry| e@),
    {
        Memo { entries, root: String::from_str(root) }
    }

    /// Whether the store holds no entry.
    pub fn is_empty(&self) -> (r: bool)
        ensures
            r == (self@.entries.len() == 0),
    {
        self.entries.len() == 0
    }

    /// The storage root.
    pub fn root(&self) -> (r: &str)
        ensures
            r@ == self@.root,
    {
        self.root.as_str()
    }

    /// An empty search under this store's root.
    pub fn new_search(&self) -> (r: MemoSearch<'_>)
        ensures
            r@.root == self@.root,
            r@.entries.len() == 0,
    {
        let entries: Vec<&MemoEntry> = Vec::new();
        assert(views_of(entries@) =~= Seq::empty());
        MemoSearch { entries, root: self.root.as_str() }
    }

    /// All entries of the store, in order, as a search.
    fn all(&self) -> (r: MemoSearch<'_>)
        ensures
            r@ == self@,
            forall|i: int| 0 <= i < self@.entries.len() ==> r.entry(i) == self.entry(i),
    {
        let mut entries: Vec<&MemoEntry> = Vec::new();
        let mut i: usize = 0;
        while i < self.entries.len()
            invariant
                i <= self.entries@.len(),
                entries@.len() == i,
                views_of(entries@) == self@.entries.subrange(0, i as int),
                forall|j: int| 0 <= j < i ==> entries@[j] == self.entry(j),
            decreases self.entries@.len() - i,
        {
            assert(self@.entries[i as int] == self.entries@[i as int]@);
            entries.push(&self.entries[i]);
            assert(views_of(entries@) =~= self@.entries.subrange(0, i + 1));
            i += 1;
        }
        assert(self@.entries.subrange(0, i as int) =~= self@.entries);
        MemoSearch { entries, root: self.root.as_str() }
    }

    /// The entries that match `key_pair`, in order; all entries when it is
    /// `None`. Fails with `InvalidValue` when the key does not compile.
    pub fn find(&self, key_pair: Option<(&str, bool, MatchCondition)>) -> (r: Result<
        MemoSearch<'_>,
        MemoError,
    >)
        ensures
            r is Ok <==> find_compiles(key_pair_view(key_pair)),
            r matches Ok(s) ==> s@.root == self@.root && s@.entries == find_entries(
                self@.entries,
                key_pair_view(key_pair),
            ),
            r matches Err(e) ==> e == MemoError::InvalidValue,
    {
        self.all().find(key_pair)
    }

    /// The entries for which `cb` returns true, in order.
    pub fn find_else<F>(&self, cb: F) -> (r: Result<MemoSearch<'_>, MemoError>) where
        F: Fn(&MemoEntry) -> bool,

        requires
            forall|e: &MemoEntry| cb.requires((e,)),
        ensures
            forall|i: int|
                0 <= i < self@.entries.len() ==> (#[trigger] self.entry(i))@ == self@.entries[i],
            r matches Ok(s) && s@.root == self@.root && exists|keep: Seq<bool>|
                keep.len() == self@.entries.len() && (forall|i: int|
                    0 <= i < keep.len() ==> cb.ensures((self.entry(i),), #[trigger] keep[i]))
                    && s@.entries == select_entries(self@.entries, keep),
    {
        let all = self.all();
        assert(forall|i: int| 0 <= i < self.entries@.len() ==> all.entry(i) == self.entry(i));
        all.find_else(cb)
    }
}

impl<'a> MemoSearch<'a> {
    /// The entry at position `i`.
    pub closed spec fn entry(&self, i: int) -> &'a MemoEntry {
        self.entries@[i]
    }

    /// The same entries under the same root.
    fn copy(&self) -> (r: MemoSearch<'a>)
        ensures
            r@ == self@,
    {
        let mut entries: Vec<&'a MemoEntry> = Vec::new();
        let mut i: usize = 0;
        while i < self.entries.len()
            invariant
                i <= self.entries@.len(),
                entries@.len() == i,
                views_of(entries@) == self@.entries.subrange(0, i as int),
            decreases self.entries@.len() - i,
        {
            assert(self@.entries[i as int] == self.entries@[i as int]@);
            entries.push(self.entries[i]);
            assert(views_of(entries@) =~= self@.entries.subrange(0, i + 1));
            i += 1;
        }
        assert(self@.entries.subrange(0, i as int) =~= self@.entries);
        MemoSearch { entries, root: self.root }
    }

    /// The entries that `p`, compiled from `key` under `condition`, keeps.
    fn filtered(
        &self,
        p: &Pattern,
        is_tag: bool,
        Ghost(key): Ghost<Seq<char>>,
        Ghost(condition): Ghost<MatchCondition>,
    ) -> (r: MemoSearch<'a>)
        requires
            p.source() == key_pattern(key, condition),
            p.ignore_case() == condition.ignore_case,
        ensures
            r@.root == self@.root,
            r@.entries == matching_entries(self@.entries, key, is_tag, condition),
    {
        let ghost pred = |e: MemoEntryView| entry_matches(e, key, is_tag, condition);
        let mut entries: Vec<&'a MemoEntry> = Vec::new();
        let mut i: usize = 0;
        assert(self@.entries.subrange(0, 0).filter(pred) =~= Seq::empty()) by {
            reveal(Seq::filter);
        }
        while i < self.entries.len()
            invariant
                i <= self.entries@.len(),
                pred == (|e: MemoEntryView| entry_matches(e, key, is_tag, condition)),
                p.source() == key_pattern(key, condition),
                p.ignore_case() == condition.ignore_case,
                views_of(entries@) == self@.entries.subrange(0, i as int).filter(pred),
            decreases self.entries@.len() - i,
        {
            proof {
                lemma_filter_step(self@.entries, i as int, pred);
            }
            let e = self.entries[i];
            assert(e@ == self@.entries[i as int]);
            if e.pattern_match(p, is_tag) {
                entries.push(e);
                assert(views_of(entries@) =~= self@.entries.subrange(0, i as int).filter(
                    pred,
                ).push(e@));
            }
            i += 1;
        }
        assert(self@.entries.subrange(0, i as int) =~= self@.entries);
        MemoSearch { entries, root: self.root }
    }

    /// The entries that match `key_pair`, in order; all of them when it is
    /// `None`. Fails with `InvalidValue` when the key does not compile.
    pub fn find(&self, key_pair: Option<(&str, bool, MatchCondition)>) -> (r: Result<
        MemoSearch<'a>,
        MemoError,
    >)
        ensures
            r is Ok <==> find_compiles(key_pair_view(key_pair)),
            r matches Ok(s) ==> s@.root == self@.root && s@.entries == find_entries(
                self@.entries,
                key_pair_view(key_pair),
            ),
            r matches Err(e) ==> e == MemoError::InvalidValue,
    {
        match key_pair {
            None => Ok(self.copy()),
            Some((key, is_tag, condition)) => {
                let source = search_pattern(key, condition);
                match Pattern::new(source.as_str(), condition.ignore_case) {
                    Ok(p) => Ok(self.filtered(&p, is_tag, Ghost(key@), Ghost(condition))),
                    Err(e) => Err(e),
                }
            },
        }
    }

    /// The entries for which `cb` returns true, in order.
    pub fn find_else<F>(&self, cb: F) -> (r: Result<MemoSearch<'a>, MemoError>) where
        F: Fn(&MemoEntry) -> bool,

        requires
            forall|e: &MemoEntry| cb.requires((e,)),
        ensures
            forall|i: int|
                0 <= i < self@.entries.len() ==> (#[trigger] self.entry(i))@ == self@.entries[i],
            r matches Ok(s) && s@.root == self@.root && exists|keep: Seq<bool>|
                keep.len() == self@.entries.len() && (forall|i: int|
                    0 <= i < keep.len() ==> cb.ensures((self.entry(i),), #[trigger] keep[i]))
                    && s@.entries == select_entries(self@.entries, keep),
    {
        let mut entries: Vec<&'a MemoEntry> = Vec::new();
        let mut i: usize = 0;
        let ghost mut keep: Seq<bool> = Seq::empty();
        while i < self.entries.len()
            invariant
                i <= self.entries@.len(),
                forall|e: &MemoEntry| cb.requires((e,)),
                keep.len() == i,
                forall|j: int| 0 <= j < i ==> cb.ensures((self.entry(j),), #[trigger] keep[j]),
                views_of(entries@) == select_entries(
                    self@.entries.subrange(0, i as int),
                    keep.subrange(0, i as int),
                ),
            decreases self.entries@.len() - i,
        {
            let e = self.entries[i];
            let b = cb(e);
            let ghost old_keep = keep;
            proof {
                keep = keep.push(b);
                assert(keep.subrange(0, i as int) =~= old_keep.subrange(0, i as int));
                lemma_select_step(self@.entries, keep, i as int);
            }
            assert(e@ == self@.entries[i as int]);
            if b {
                entries.push(e);
                assert(views_of(entries@) =~= select_entries(
                    self@.entries.subrange(0, i as int),
                    keep.subrange(0, i as int),
                ).push(e@));
            }
            i += 1;
        }
        assert(self@.entries.subrange(0, i as int) =~= self@.entries);
        assert(keep.subrange(0, i as int) =~= keep);
        Ok(MemoSearch { entries, root: self.root })
    }

    /// Every entry of `self`, then each entry of `other` whose path is not
    /// there yet, in `other`'s order. Fails with `InvalidValue` when the
    /// roots differ.
    pub fn union(&self, other: &MemoSearch<'a>) -> (r: Result<MemoSearch<'a>, MemoError>)
        ensures
            r is Err <==> self@.root != other@.root,
            r matches Err(e) ==> e == MemoError::InvalidValue,
            r matches Ok(s) ==> s@.root == self@.root && s@.entries == union_entries(
                self@.entries,
                other@.entries,
            ),
    {
        if !same_text(self.root, other.root) {
            return Err(MemoError::InvalidValue);
        }
        let mut entries = self.copy().entries;
        let ghost b = other@.entries;
        let n = other.entries.len();
        let mut j: usize = 0;
        assert(b.subrange(0, n as int) =~= b);
        while j < n
            invariant
                n == other.entries@.len(),
                b == other@.entries,
                j <= n,
                union_entries(views_of(entries@), b.subrange(j as int, n as int))
                    == union_entries(self@.entries, b),
            decreases n - j,
        {
            let e = other.entries[j];
            let ghost before = views_of(entries@);
            assert(b.subrange(j as int, n as int).drop_first() =~= b.subrange(j + 1, n as int));
            assert(b.subrange(j as int, n as int)[0] == e@);
            if !contains_path(&entries, e) {
                entries.push(e);
                assert(views_of(entries@) =~= before.push(e@));
            }
            j += 1;
        }
        assert(b.subrange(n as int, n as int) =~= Seq::<MemoEntryView>::empty());
        Ok(MemoSearch { entries, root: self.root })
    }

    /// The entries of `self` whose path is in `other` (`keep`) or not in it.
    fn filter_by(&self, other: &MemoSearch<'a>, keep: bool) -> (r: MemoSearch<'a>)
        ensures
            r@.root == self@.root,
            keep ==> r@.entries == intersection_entries(self@.entries, other@.entries),
            !keep ==> r@.entries == difference_entries(self@.entries, other@.entries),
    {
        let ghost b = other@.entries;
        let ghost pred = if keep {
            |e: MemoEntryView| has_path(b, e.full_path)
        } else {
            |e: MemoEntryView| !has_path(b, e.full_path)
        };
        let mut entries: Vec<&'a MemoEntry> = Vec::new();
        let mut i: usize = 0;
        assert(self@.entries.subrange(0, 0).filter(pred) =~= Seq::empty()) by {
            reveal(Seq::filter);
        }
        while i < self.entries.len()
            invariant
                i <= self.entries@.len(),
                b == other@.entries,
                pred == if keep {
                    |e: MemoEntryView| has_path(b, e.full_path)
                } else {
                    |e: MemoEntryView| !has_path(b, e.full_path)
                },
                views_of(entries@) == self@.entries.subrange(0, i as int).filter(pred),
            decreases self.entries@.len() - i,
        {
            proof {
                lemma_filter_step(self@.entries, i as int, pred);
            }
            let e = self.entries[i];
            assert(e@ == self@.entries[i as int]);
            if contains_path(&other.entries, e) == keep {
                entries.push(e);
                assert(views_of(entries@) =~= self@.entries.subrange(0, i as int).filter(
                    pred,
                ).push(e@));
            }
            i += 1;
        }
        assert(self@.entries.subrange(0, i as int) =~= self@.entries);
        MemoSearch { entries, root: self.root }
    }

    /// The entries of `self` whose path is not in `other`, in order. Fails
    /// with `InvalidValue` when the roots differ.
    pub fn difference(&self, other: &MemoSearch<'a>) -> (r: Result<MemoSearch<'a>, MemoError>)
        ensures
            r is Err <==> self@.root != other@.root,
            r matches Err(e) ==> e == MemoError::InvalidValue,
            r matches Ok(s) ==> s@.root == self@.root && s@.entries == difference_entries(
                self@.entries,
                other@.entries,
            ),
    {
        if !same_text(self.root, other.root) {
            return Err(MemoError::InvalidValue);
        }
        Ok(self.filter_by(other, false))
    }

    /// The entries of `self` whose path is in `other`, in order. Fails with
    /// `InvalidValue` when the roots differ.
    pub fn intersection(&self, other: &MemoSearch<'a>) -> (r: Result<MemoSearch<'a>, MemoError>)
        ensures
            r is Err <==> self@.root != other@.root,
            r matches Err(e) ==> e == MemoError::InvalidValue,
            r matches Ok(s) ==> s@.root == self@.root && s@.entries == intersection_entries(
                self@.entries,
                other@.entries,
            ),
    {
        if !same_text(self.root, other.root) {
            return Err(MemoError::InvalidValue);
        }
        Ok(self.filter_by(other, true))
    }

    /// The entries, in order.
    pub fn entries(&self) -> (r: Vec<&'a MemoEntry>)
        ensures
            views_of(r@) == self@.entries,
    {
        self.copy().entries
    }

    /// The root of the store searched.
    pub fn root(&self) -> (r: &'a str)
        ensures
            r@ == self@.root,
    {
        self.root
    }

    /// Whether the search holds no entry.
    pub fn is_empty(&self) -> (r: bool)
        ensures
            r == (self@.entries.len() == 0),
    {
        self.entries.len() == 0
    }
}

/// The paths of a sequence of entries, in order.
pub open spec fn paths_of(s: Seq<MemoEntryView>) -> Seq<Seq<char>> {
    s.map_values(|e: MemoEntryView| e.full_path)
}

impl<'a> PartialEq for MemoSearch<'a> {
    fn eq(&self, other: &MemoSearch<'a>) -> (r: bool) {
        if !same_text(self.root, other.root) {
            return false;
        }
        if self.entries.len() != other.entries.len() {
            assert(paths_of(self@.entries).len() != paths_of(other@.entries).len());
            return false;
        }
        let mut i: usize = 0;
        while i < self.entries.len()
            invariant
                i <= self.entries@.len(),
                self.entries@.len() == other.entries@.len(),
                forall|j: int|
                    0 <= j < i ==> paths_of(self@.entries)[j] == paths_of(other@.entries)[j],
            decreases self.entries@.len() - i,
        {
            if !same_text(self.entries[i].full_path(), other.entries[i].full_path()) {
                assert(paths_of(self@.entries)[i as int] != paths_of(other@.entries)[i as int]);
                return false;
            }
            i += 1;
        }
        assert(paths_of(self@.entries) =~= paths_of(other@.entries));
        true
    }
}

impl<'a> vstd::std_specs::cmp::PartialEqSpecImpl for MemoSearch<'a> {
    open spec fn obeys_eq_spec() -> bool {
        true
    }

    open spec fn eq_spec(&self, other: &MemoSearch<'a>) -> bool {
        self@.root == other@.root && paths_of(self@.entries) == paths_of(other@.entries)
    }
}

proof fn lemma_union_covered(a: Seq<MemoEntryView>, b: Seq<MemoEntryView>)
    requires
        forall|i: int| 0 <= i < b.len() ==> has_path(a, #[trigger] b[i].full_path),
    ensures
        union_entries(a, b) == a,
    decreases b.len(),
{
    if b.len() > 0 {
        assert(has_path(a, b[0].full_path));
        assert forall|i: int| 0 <= i < b.drop_first().len() implies has_path(
            a,
            #[trigger] b.drop_first()[i].full_path,
        ) by {
            assert(b.drop_first()[i] == b[i + 1]);
        }
        lemma_union_covered(a, b.drop_first());
    }
}

proof fn lemma_filter_all(s: Seq<MemoEntryView>, pred: spec_fn(MemoEntryView) -> bool)
    requires
        forall|i: int| 0 <= i < s.len() ==> pred(#[trigger] s[i]),
    ensures
        s.filter(pred) == s,
    decreases s.len(),
{
    reveal(Seq::filter);
    if s.len() > 0 {
        lemma_filter_all(s.drop_last(), pred);
        assert(s.drop_last().push(s.last()) =~= s);
    }
}

proof fn lemma_filter_none(s: Seq<MemoEntryView>, pred: spec_fn(MemoEntryView) -> bool)
    requires
        forall|i: int| 0 <= i < s.len() ==> !pred(#[trigger] s[i]),
    ensures
        s.filter(pred).len() == 0,
    decreases s.len(),
{
    reveal(Seq::filter);
    if s.len() > 0 {
        lemma_filter_none(s.drop_last(), pred);
    }
}

/// Combining a search with itself: the union and the intersection give it
/// back, the difference is empty.
pub proof fn lemma_self_algebra(a: Seq<MemoEntryView>)
    ensures
        union_entries(a, a) == a,
        intersection_entries(a, a) == a,
        difference_entries(a, a).len() == 0,
{
    assert forall|i: int| 0 <= i < a.len() implies has_path(a, #[trigger] a[i].full_path) by {}
    lemma_union_covered(a, a);
    lemma_filter_all(a, |e: MemoEntryView| has_path(a, e.full_path));
    lemma_filter_none(a, |e: MemoEntryView| !has_path(a, e.full_path));
}

/// An entry path is in the union of `a` and `b` exactly when it is in `a` or
/// in `b`.
pub proof fn lemma_union_paths(a: Seq<MemoEntryView>, b: Seq<MemoEntryView>, p: Seq<char>)
    ensures
        has_path(union_entries(a, b), p) <==> (has_path(a, p) || has_path(b, p)),
    decreases b.len(),
{
    if b.len() > 0 {
        let next = if has_path(a, b[0].full_path) {
            a
        } else {
            a.push(b[0])
        };
        lemma_union_paths(next, b.drop_first(), p);
        if has_path(next, p) && !has_path(a, p) {
            let i = choose|i: int| 0 <= i < next.len() && next[i].full_path == p;
            assert(b[0].full_path == p);
        }
        if has_path(a, p) {
            let i = choose|i: int| 0 <= i < a.len() && a[i].full_path == p;
            assert(next[i] == a[i]);
        }
        if b[0].full_path == p && !has_path(a, p) {
            assert(next[a.len() as int] == b[0]);
        }
        if has_path(b.drop_first(), p) {
            let i = choose|i: int| 0 <= i < b.drop_first().len() && b.drop_first()[i].full_path == p;
            assert(b[i + 1] == b.drop_first()[i]);
        }
        if has_path(b, p) {
            let i = choose|i: int| 0 <= i < b.len() && b[i].full_path == p;
            if i > 0 {
                assert(b.drop_first()[i - 1] == b[i]);
            }
        }
    }
}

/// Union is commutative on the entries it holds, told apart by path; only
/// the order may differ.
pub proof fn lemma_union_commutes(a: Seq<MemoEntryView>, b: Seq<MemoEntryView>, p: Seq<char>)
    ensures
        has_path(union_entries(a, b), p) <==> has_path(union_entries(b, a), p),
{
    lemma_union_paths(a, b, p);
    lemma_union_paths(b, a, p);
}

} // verus!
