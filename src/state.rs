use std::collections::{BTreeMap, BTreeSet};

use vstd::prelude::*;

use crate::error::HoardError;

use crate::index::{last_with_ino, last_with_name, lemma_last_with_name_matches, Index, Object, ObjectView};
use crate::order::{lemma_lt_irreflexive, lemma_lt_total, lemma_lt_transitive, path_lt, seq_lt, str_eq};

verus! {

/// The kind of a change, over entry views.
pub enum KindView {
    Ignore,
    Create(ObjectView),
    Delete(ObjectView),
    Modify(ObjectView, ObjectView),
}

pub struct ChangeView {
    pub path: Seq<char>,
    pub kind: KindView,
}

/// The types of change that can be executed.
#[derive(Debug)]
pub enum ChangeType {
    /// Leave the path alone.
    Ignore,
    /// Link the object's content at the path.
    Create(Object),
    /// Remove the reference at the path.
    Delete(Object),
    /// Redirect the path from the first object's content to the second's.
    Modify(Object, Object),
}

impl View for ChangeType {
    type V = KindView;

    open spec fn view(&self) -> KindView {
        match self {
            ChangeType::Ignore => KindView::Ignore,
            ChangeType::Create(o) => KindView::Create(o@),
            ChangeType::Delete(o) => KindView::Delete(o@),
            ChangeType::Modify(o, n) => KindView::Modify(o@, n@),
        }
    }
}

/// A change to the filesystem at one path.
#[derive(Debug)]
pub struct Change {
    path: String,
    kind: ChangeType,
}

impl View for Change {
    type V = ChangeView;

    closed spec fn view(&self) -> ChangeView {
        ChangeView { path: self.path@, kind: self.kind@ }
    }
}

impl Change {
    pub fn new(path: String, kind: ChangeType) -> (r: Change)
        ensures
            r@ == (ChangeView { path: path@, kind: kind@ }),
    {
        Change { path, kind }
    }

    pub fn path(&self) -> (r: &str)
        ensures
            r@ == self@.path,
    {
        self.path.as_str()
    }

    pub fn kind(&self) -> (r: &ChangeType)
        ensures
            r@ == self@.kind,
    {
        &self.kind
    }
}

pub struct StateView {
    pub inner: Seq<(Seq<char>, Seq<Seq<char>>)>,
    pub extra: Seq<Seq<char>>,
}

/// No two entries carry the same name.
pub open spec fn names_unique(inner: Seq<(Seq<char>, Seq<Seq<char>>)>) -> bool {
    forall|i: int, j: int| 0 <= i < j < inner.len() ==> inner[i].0 != inner[j].0
}

/// No entry lists a path twice.
pub open spec fn paths_unique(inner: Seq<(Seq<char>, Seq<Seq<char>>)>) -> bool {
    forall|i: int| 0 <= i < inner.len() ==> #[trigger] inner[i].1.no_duplicates()
}

pub open spec fn entry_view(e: (String, Vec<String>)) -> (Seq<char>, Seq<Seq<char>>) {
    (e.0@, e.1@.map_values(|s: String| s@))
}

/// A layout of the hoard: for each object name the paths that hold it, and
/// the paths that hold no known object.
pub struct State {
    inner: Vec<(String, Vec<String>)>,
    extra: Vec<String>,
}

impl View for State {
    type V = StateView;

    closed spec fn view(&self) -> StateView {
        StateView {
            inner: self.inner@.map_values(|e: (String, Vec<String>)| entry_view(e)),
            extra: self.extra@.map_values(|s: String| s@),
        }
    }
}

/// Some entry carries the name `n`.
pub open spec fn has_name(inner: Seq<(Seq<char>, Seq<Seq<char>>)>, n: Seq<char>) -> bool {
    exists|i: int| 0 <= i < inner.len() && #[trigger] inner[i].0 == n
}

/// The name of the last entry that lists the path `p`.
pub open spec fn claimant(inner: Seq<(Seq<char>, Seq<Seq<char>>)>, p: Seq<char>) -> Option<
    Seq<char>,
>
    decreases inner.len(),
{
    if inner.len() == 0 {
        None
    } else if inner.last().1.contains(p) {
        Some(inner.last().0)
    } else {
        claimant(inner.drop_last(), p)
    }
}

/// The object that one side of a diff places at `p`: only names that both
/// sides know take part.
pub open spec fn side_object(
    this: Seq<(Seq<char>, Seq<Seq<char>>)>,
    other: Seq<(Seq<char>, Seq<Seq<char>>)>,
    objs: Seq<ObjectView>,
    p: Seq<char>,
) -> Option<ObjectView> {
    match claimant(this, p) {
        Some(n) => if has_name(other, n) {
            last_with_name(objs, n)
        } else {
            None
        },
        None => None,
    }
}

/// The change that reconciling `actual` towards `desired` makes at `p`.
pub open spec fn change_at(
    desired: StateView,
    actual: StateView,
    objs: Seq<ObjectView>,
    p: Seq<char>,
) -> Option<KindView> {
    if actual.extra.contains(p) {
        Some(KindView::Ignore)
    } else {
        match (
            side_object(desired.inner, actual.inner, objs, p),
            side_object(actual.inner, desired.inner, objs, p),
        ) {
            (Some(n), Some(o)) => if n == o {
                None
            } else {
                Some(KindView::Modify(o, n))
            },
            (Some(n), None) => Some(KindView::Create(n)),
            (None, Some(o)) => Some(KindView::Delete(o)),
            (None, None) => None,
        }
    }
}

/// Changes strictly ordered by path.
pub open spec fn sorted_by_path(cs: Seq<ChangeView>) -> bool {
    forall|i: int, j: int| 0 <= i < j < cs.len() ==> seq_lt(cs[i].path, cs[j].path)
}

pub open spec fn has_path(cs: Seq<ChangeView>, p: Seq<char>) -> bool {
    exists|k: int| 0 <= k < cs.len() && #[trigger] cs[k].path == p
}

pub open spec fn views(cs: Seq<Change>) -> Seq<ChangeView> {
    cs.map_values(|c: Change| c@)
}

/// Every change is the one that reconciliation makes at its path.
pub open spec fn changes_ok(
    cs: Seq<ChangeView>,
    desired: StateView,
    actual: StateView,
    objs: Seq<ObjectView>,
) -> bool {
    &&& sorted_by_path(cs)
    &&& forall|i: int|
        0 <= i < cs.len() ==> change_at(desired, actual, objs, #[trigger] cs[i].path) == Some(
            cs[i].kind,
        )
}

fn contains_path(paths: &Vec<String>, p: &str) -> (r: bool)
    ensures
        r == paths@.map_values(|s: String| s@).contains(p@),
{
    let ghost pv = paths@.map_values(|s: String| s@);
    let mut i: usize = 0;
    while i < paths.len()
        invariant
            i <= paths.len(),
            pv == paths@.map_values(|s: String| s@),
            forall|k: int| 0 <= k < i ==> pv[k] != p@,
        decreases paths.len() - i,
    {
        if str_eq(paths[i].as_str(), p) {
            assert(pv[i as int] == p@);
            return true;
        }
        i = i + 1;
    }
    false
}

fn has_name_exec(inner: &Vec<(String, Vec<String>)>, n: &str) -> (r: bool)
    ensures
        r == has_name(inner@.map_values(|e: (String, Vec<String>)| entry_view(e)), n@),
{
    let ghost iv = inner@.map_values(|e: (String, Vec<String>)| entry_view(e));
    let mut i: usize = 0;
    while i < inner.len()
        invariant
            i <= inner.len(),
            iv == inner@.map_values(|e: (String, Vec<String>)| entry_view(e)),
            forall|k: int| 0 <= k < i ==> iv[k].0 != n@,
        decreases inner.len() - i,
    {
        if str_eq(inner[i].0.as_str(), n) {
            assert(iv[i as int].0 == n@);
            return true;
        }
        i = i + 1;
    }
    false
}

fn claimant_exec(inner: &Vec<(String, Vec<String>)>, p: &str) -> (r: Option<usize>)
    ensures
        match r {
            Some(k) => k < inner.len() && claimant(
                inner@.map_values(|e: (String, Vec<String>)| entry_view(e)),
                p@,
            ) == Some(inner@[k as int].0@),
            None => claimant(inner@.map_values(|e: (String, Vec<String>)| entry_view(e)), p@)
                is None,
        },
{
    let ghost iv = inner@.map_values(|e: (String, Vec<String>)| entry_view(e));
    let mut k: usize = inner.len();
    assert(iv.subrange(0, k as int) =~= iv);
    while k > 0
        invariant
            k <= inner.len(),
            iv == inner@.map_values(|e: (String, Vec<String>)| entry_view(e)),
            claimant(iv, p@) == claimant(iv.subrange(0, k as int), p@),
        decreases k,
    {
        assert(iv.subrange(0, k as int).drop_last() =~= iv.subrange(0, k - 1));
        if contains_path(&inner[k - 1].1, p) {
            return Some(k - 1);
        }
        k = k - 1;
    }
    None
}

fn side_object_exec<'a>(
    this: &Vec<(String, Vec<String>)>,
    other: &Vec<(String, Vec<String>)>,
    index: &'a Index,
    p: &str,
) -> (r: Option<&'a Object>)
    ensures
        match r {
            Some(o) => side_object(
                this@.map_values(|e: (String, Vec<String>)| entry_view(e)),
                other@.map_values(|e: (String, Vec<String>)| entry_view(e)),
                index.objs(),
                p@,
            ) == Some(o@),
            None => side_object(
                this@.map_values(|e: (String, Vec<String>)| entry_view(e)),
                other@.map_values(|e: (String, Vec<String>)| entry_view(e)),
                index.objs(),
                p@,
            ) is None,
        },
{
    match claimant_exec(this, p) {
        Some(k) => {
            if has_name_exec(other, this[k].0.as_str()) {
                index.by_name(this[k].0.as_str())
            } else {
                None
            }
        },
        None => None,
    }
}

fn change_at_exec(desired: &State, actual: &State, index: &Index, p: &str) -> (r: Option<
    ChangeType,
>)
    ensures
        match r {
            Some(t) => change_at(desired@, actual@, index.objs(), p@) == Some(t@),
            None => change_at(desired@, actual@, index.objs(), p@) is None,
        },
{
    if contains_path(&actual.extra, p) {
        return Some(ChangeType::Ignore);
    }
    let created = side_object_exec(&desired.inner, &actual.inner, index, p);
    let deleted = side_object_exec(&actual.inner, &desired.inner, index, p);
    match (created, deleted) {
        (Some(n), Some(o)) => {
            proof {
                lemma_last_with_name_matches(index.objs(), claimant(desired@.inner, p@)->0);
                lemma_last_with_name_matches(index.objs(), claimant(actual@.inner, p@)->0);
            }
            if str_eq(n.name(), o.name()) {
                None
            } else {
                Some(ChangeType::Modify(o.duplicate(), n.duplicate()))
            }
        },
        (Some(n), None) => Some(ChangeType::Create(n.duplicate())),
        (None, Some(o)) => Some(ChangeType::Delete(o.duplicate())),
        (None, None) => None,
    }
}

/// Places `c` among `changes` by its path, unless a change at that path is
/// already there.
fn insert_change(
    changes: &mut Vec<Change>,
    c: Change,
    Ghost(desired): Ghost<StateView>,
    Ghost(actual): Ghost<StateView>,
    Ghost(objs): Ghost<Seq<ObjectView>>,
)
    requires
        changes_ok(views(old(changes)@), desired, actual, objs),
        change_at(desired, actual, objs, c@.path) == Some(c@.kind),
    ensures
        changes_ok(views(final(changes)@), desired, actual, objs),
        has_path(views(final(changes)@), c@.path),
        forall|p: Seq<char>| has_path(views(old(changes)@), p) ==> has_path(views(final(changes)@), p),
{
    let ghost s = views(changes@);
    let mut k: usize = 0;
    while k < changes.len() && path_lt(changes[k].path.as_str(), c.path.as_str())
        invariant
            k <= changes.len(),
            s == views(changes@),
            forall|i: int| 0 <= i < k ==> seq_lt(s[i].path, c@.path),
        decreases changes.len() - k,
    {
        k = k + 1;
    }
    if k < changes.len() && str_eq(changes[k].path.as_str(), c.path.as_str()) {
        assert(s[k as int].path == c@.path);
        return;
    }
    proof {
        if k < changes.len() {
            lemma_lt_total(s[k as int].path, c@.path);
        }
    }
    let ghost cv = c@;
    changes.insert(k, c);
    let ghost s2 = views(changes@);
    assert(s2 =~= s.insert(k as int, cv));
    assert forall|i: int, j: int| 0 <= i < j < s2.len() implies seq_lt(s2[i].path, s2[j].path) by {
        if i == k && j > k + 1 {
            lemma_lt_transitive(cv.path, s[k as int].path, s[j - 1].path);
        }
    }
    assert(s2[k as int].path == cv.path);
    assert forall|p: Seq<char>| has_path(s, p) implies has_path(s2, p) by {
        let m = choose|m: int| 0 <= m < s.len() && #[trigger] s[m].path == p;
        if m < k {
            assert(s2[m].path == p);
        } else {
            assert(s2[m + 1].path == p);
        }
    }
}

/// Adds the change that reconciliation makes at each of `paths`.
fn add_changes(
    changes: &mut Vec<Change>,
    paths: &Vec<String>,
    desired: &State,
    actual: &State,
    index: &Index,
)
    requires
        changes_ok(views(old(changes)@), desired@, actual@, index.objs()),
    ensures
        changes_ok(views(final(changes)@), desired@, actual@, index.objs()),
        forall|p: Seq<char>| has_path(views(old(changes)@), p) ==> has_path(views(final(changes)@), p),
        forall|p: Seq<char>|
            paths@.map_values(|s: String| s@).contains(p) && change_at(
                desired@,
                actual@,
                index.objs(),
                p,
            ) is Some ==> has_path(views(final(changes)@), p),
{
    let ghost pv = paths@.map_values(|s: String| s@);
    let ghost start = views(changes@);
    let mut i: usize = 0;
    while i < paths.len()
        invariant
            i <= paths.len(),
            pv == paths@.map_values(|s: String| s@),
            changes_ok(views(changes@), desired@, actual@, index.objs()),
            forall|p: Seq<char>| has_path(start, p) ==> has_path(views(changes@), p),
            forall|k: int|
                0 <= k < i && change_at(desired@, actual@, index.objs(), #[trigger] pv[k])
                    is Some ==> has_path(views(changes@), pv[k]),
        decreases paths.len() - i,
    {
        match change_at_exec(desired, actual, index, paths[i].as_str()) {
            Some(t) => {
                let c = Change { path: paths[i].clone(), kind: t };
                insert_change(
                    changes,
                    c,
                    Ghost(desired@),
                    Ghost(actual@),
                    Ghost(index.objs()),
                );
            },
            None => {},
        }
        i = i + 1;
    }
    assert forall|p: Seq<char>|
        pv.contains(p) && change_at(desired@, actual@, index.objs(), p) is Some implies has_path(
        views(changes@),
        p,
    ) by {
        let k = choose|k: int| 0 <= k < pv.len() && #[trigger] pv[k] == p;
        assert(change_at(desired@, actual@, index.objs(), pv[k]) is Some);
    }
}

proof fn lemma_claimant_listed(inner: Seq<(Seq<char>, Seq<Seq<char>>)>, p: Seq<char>)
    requires
        claimant(inner, p) is Some,
    ensures
        exists|i: int| 0 <= i < inner.len() && #[trigger] inner[i].1.contains(p),
    decreases inner.len(),
{
    if !inner.last().1.contains(p) {
        lemma_claimant_listed(inner.drop_last(), p);
        let i = choose|i: int| 0 <= i < inner.len() - 1 && #[trigger] inner.drop_last()[i].1.contains(p);
        assert(inner[i].1.contains(p));
    } else {
        assert(inner[inner.len() - 1].1.contains(p));
    }
}

/// Diffs the layout on disk against the desired one: the changes, ordered by
/// path, that bring `actual` to `desired`, one for each path where the two
/// differ over the names that both know.
pub fn resolve(desired: &State, actual: &State, index: &Index) -> (r: Vec<Change>)
    ensures
        changes_ok(views(r@), desired@, actual@, index.objs()),
        forall|p: Seq<char>|
            change_at(desired@, actual@, index.objs(), p) is Some ==> has_path(views(r@), p),
{
    let mut changes: Vec<Change> = Vec::new();
    assert(views(changes@) =~= Seq::<ChangeView>::empty());
    add_changes(&mut changes, &actual.extra, desired, actual, index);
    let mut sides: usize = 0;
    while sides < 2
        invariant
            sides <= 2,
            changes_ok(views(changes@), desired@, actual@, index.objs()),
            forall|p: Seq<char>|
                actual@.extra.contains(p) && change_at(desired@, actual@, index.objs(), p)
                    is Some ==> has_path(views(changes@), p),
            sides >= 1 ==> forall|p: Seq<char>|
                claimant(desired@.inner, p) is Some && change_at(
                    desired@,
                    actual@,
                    index.objs(),
                    p,
                ) is Some ==> has_path(views(changes@), p),
            sides >= 2 ==> forall|p: Seq<char>|
                claimant(actual@.inner, p) is Some && change_at(
                    desired@,
                    actual@,
                    index.objs(),
                    p,
                ) is Some ==> has_path(views(changes@), p),
        decreases 2 - sides,
    {
        let inner = if sides == 0 {
            &desired.inner
        } else {
            &actual.inner
        };
        let ghost iv = inner@.map_values(|e: (String, Vec<String>)| entry_view(e));
        let ghost before = views(changes@);
        let mut i: usize = 0;
        while i < inner.len()
            invariant
                i <= inner.len(),
                iv == inner@.map_values(|e: (String, Vec<String>)| entry_view(e)),
                changes_ok(views(changes@), desired@, actual@, index.objs()),
                forall|p: Seq<char>| has_path(before, p) ==> has_path(views(changes@), p),
                forall|j: int, p: Seq<char>|
                    0 <= j < i && #[trigger] iv[j].1.contains(p) && change_at(
                        desired@,
                        actual@,
                        index.objs(),
                        p,
                    ) is Some ==> has_path(views(changes@), p),
            decreases inner.len() - i,
        {
            add_changes(&mut changes, &inner[i].1, desired, actual, index);
            i = i + 1;
        }
        proof {
            assert forall|p: Seq<char>|
                claimant(iv, p) is Some && change_at(desired@, actual@, index.objs(), p)
                    is Some implies has_path(views(changes@), p) by {
                lemma_claimant_listed(iv, p);
            }
            if sides == 1 {
                assert forall|p: Seq<char>|
                    claimant(desired@.inner, p) is Some && change_at(
                        desired@,
                        actual@,
                        index.objs(),
                        p,
                    ) is Some implies has_path(views(changes@), p) by {
                    assert(has_path(before, p));
                }
            }
        }
        sides = sides + 1;
    }
    proof {
        assert forall|p: Seq<char>|
            change_at(desired@, actual@, index.objs(), p) is Some implies has_path(
            views(changes@),
            p,
        ) by {
            if !actual@.extra.contains(p) {
                if claimant(desired@.inner, p) is None {
                    assert(claimant(actual@.inner, p) is Some);
                }
            }
        }
    }
    changes
}

#[verifier::external_type_specification]
#[verifier::external_body]
pub struct ExJsonError(serde_json::Error);

/// The entries of a manifest text: each name with its set of paths, names
/// and paths in ascending order; `None` where the text is not such a JSON
/// object.
pub uninterp spec fn manifest_of(text: Seq<char>) -> Option<Seq<(Seq<char>, Seq<Seq<char>>)>>;

/// Relies on serde_json::from_str into a map from names to sets of paths;
/// the map's keys and each set's elements are distinct.
#[verifier::external_body]
fn parse_manifest(text: &str) -> (r: Result<Vec<(String, Vec<String>)>, serde_json::Error>)
    ensures
        match r {
            Ok(v) => manifest_of(text@) == Some(
                v@.map_values(|e: (String, Vec<String>)| entry_view(e)),
            ) && names_unique(v@.map_values(|e: (String, Vec<String>)| entry_view(e)))
                && paths_unique(v@.map_values(|e: (String, Vec<String>)| entry_view(e))),
            Err(_) => manifest_of(text@) is None,
        },
{
    let m: BTreeMap<String, BTreeSet<String>> = serde_json::from_str(text)?;
    Ok(m.into_iter().map(|(name, paths)| (name, paths.into_iter().collect())).collect())
}

/// The name `n` lists the path `p`.
pub open spec fn claims(inner: Seq<(Seq<char>, Seq<Seq<char>>)>, n: Seq<char>, p: Seq<char>) -> bool {
    exists|i: int| 0 <= i < inner.len() && #[trigger] inner[i].0 == n && inner[i].1.contains(p)
}

/// Two different names list the path `p`.
pub open spec fn contested(inner: Seq<(Seq<char>, Seq<Seq<char>>)>, p: Seq<char>) -> bool {
    exists|n1: Seq<char>, n2: Seq<char>| n1 != n2 && #[trigger] claims(inner, n1, p) && #[trigger] claims(inner, n2, p)
}

/// The entries whose names are among `names`, in their order.
pub open spec fn known_entries(
    entries: Seq<(Seq<char>, Seq<Seq<char>>)>,
    names: Seq<Seq<char>>,
) -> Seq<(Seq<char>, Seq<Seq<char>>)>
    decreases entries.len(),
{
    if entries.len() == 0 {
        entries
    } else if names.contains(entries.last().0) {
        known_entries(entries.drop_last(), names).push(entries.last())
    } else {
        known_entries(entries.drop_last(), names)
    }
}

proof fn lemma_known_entries(es: Seq<(Seq<char>, Seq<Seq<char>>)>, names: Seq<Seq<char>>)
    ensures
        forall|i: int| 0 <= i < known_entries(es, names).len() ==> es.contains(#[trigger] known_entries(es, names)[i]),
        names_unique(es) ==> names_unique(known_entries(es, names)),
        paths_unique(es) ==> paths_unique(known_entries(es, names)),
    decreases es.len(),
{
    if es.len() > 0 {
        let d = es.drop_last();
        lemma_known_entries(d, names);
        let k0 = known_entries(d, names);
        let known = known_entries(es, names);
        assert forall|x: (Seq<char>, Seq<Seq<char>>)| d.contains(x) implies es.contains(x) by {
            let m = choose|m: int| 0 <= m < d.len() && d[m] == x;
            assert(es[m] == x);
        }
        if names.contains(es.last().0) {
            assert(known == k0.push(es.last()));
            assert forall|i: int| 0 <= i < known.len() implies es.contains(#[trigger] known[i]) by {
                if i < k0.len() {
                    assert(known[i] == k0[i]);
                    assert(d.contains(k0[i]));
                } else {
                    assert(es[es.len() - 1] == known[i]);
                }
            }
            if names_unique(es) {
                assert forall|i: int, j: int| 0 <= i < j < known.len() implies known[i].0 != known[j].0 by {
                    if j == k0.len() {
                        assert(d.contains(k0[i]));
                        let m = choose|m: int| 0 <= m < d.len() && d[m] == k0[i];
                        assert(es[m] == k0[i]);
                    } else {
                        assert(known[i] == k0[i] && known[j] == k0[j]);
                        assert(names_unique(d));
                    }
                }
            }
            if paths_unique(es) {
                assert(paths_unique(d));
                assert forall|i: int| 0 <= i < known.len() implies #[trigger] known[i].1.no_duplicates() by {
                    if i < k0.len() {
                        assert(known[i] == k0[i]);
                    } else {
                        assert(es[es.len() - 1] == known[i]);
                    }
                }
            }
        } else {
            if names_unique(es) {
                assert(names_unique(d));
            }
            if paths_unique(es) {
                assert(paths_unique(d));
            }
        }
    }
}

/// The report of a contested manifest: every contested path, each once, with
/// exactly the names that list it.
pub open spec fn conflicts_ok(
    inner: Seq<(Seq<char>, Seq<Seq<char>>)>,
    conf: Seq<(Seq<char>, Seq<Seq<char>>)>,
) -> bool {
    &&& forall|k: int|
        0 <= k < conf.len() ==> contested(inner, #[trigger] conf[k].0) && forall|n: Seq<char>|
            conf[k].1.contains(n) <==> claims(inner, n, conf[k].0)
    &&& forall|p: Seq<char>| contested(inner, p) ==> reported(conf, p)
}

pub open spec fn strings_view(v: Vec<String>) -> Seq<Seq<char>> {
    v@.map_values(|s: String| s@)
}

fn copy_strings(v: &Vec<String>) -> (r: Vec<String>)
    ensures
        strings_view(r) == strings_view(*v),
{
    let mut r: Vec<String> = Vec::new();
    let mut i: usize = 0;
    while i < v.len()
        invariant
            i <= v.len(),
            strings_view(r) =~= strings_view(*v).subrange(0, i as int),
        decreases v.len() - i,
    {
        let ghost before = strings_view(r);
        r.push(v[i].clone());
        assert(strings_view(r) =~= before.push(v@[i as int]@));
        assert(strings_view(*v).subrange(0, i + 1) =~= strings_view(*v).subrange(0, i as int).push(
            v@[i as int]@,
        ));
        i = i + 1;
    }
    assert(strings_view(*v).subrange(0, v.len() as int) =~= strings_view(*v));
    r
}

/// The names of `inner` that list `p`.
fn claimants_of(inner: &Vec<(String, Vec<String>)>, p: &str) -> (r: Vec<String>)
    ensures
        strings_view(r).no_duplicates(),
        forall|n: Seq<char>|
            strings_view(r).contains(n) <==> claims(
                inner@.map_values(|e: (String, Vec<String>)| entry_view(e)),
                n,
                p@,
            ),
{
    let ghost iv = inner@.map_values(|e: (String, Vec<String>)| entry_view(e));
    let mut r: Vec<String> = Vec::new();
    let mut i: usize = 0;
    while i < inner.len()
        invariant
            i <= inner.len(),
            iv == inner@.map_values(|e: (String, Vec<String>)| entry_view(e)),
            strings_view(r).no_duplicates(),
            forall|n: Seq<char>|
                strings_view(r).contains(n) <==> claims(iv.subrange(0, i as int), n, p@),
        decreases inner.len() - i,
    {
        let ghost before = strings_view(r);
        let ghost sub = iv.subrange(0, i as int);
        let ghost sub1 = iv.subrange(0, i + 1);
        let listed = contains_path(&inner[i].1, p);
        if listed && !contains_path(&r, inner[i].0.as_str()) {
            r.push(inner[i].0.clone());
            assert(strings_view(r) =~= before.push(iv[i as int].0));
        } else {
            assert(strings_view(r) == before);
        }
        assert forall|n: Seq<char>| strings_view(r).contains(n) <==> claims(sub1, n, p@) by {
            if claims(sub1, n, p@) {
                let j = choose|j: int| 0 <= j < sub1.len() && #[trigger] sub1[j].0 == n && sub1[j].1.contains(p@);
                if j < i {
                    assert(sub[j].0 == n);
                    assert(before.contains(n));
                    let m = choose|m: int| 0 <= m < before.len() && #[trigger] before[m] == n;
                    assert(strings_view(r)[m] == n);
                } else {
                    assert(listed);
                    if !before.contains(n) {
                        assert(strings_view(r)[before.len() as int] == n);
                    } else {
                        let m = choose|m: int| 0 <= m < before.len() && #[trigger] before[m] == n;
                        assert(strings_view(r)[m] == n);
                    }
                }
            }
            if strings_view(r).contains(n) {
                let m = choose|m: int| 0 <= m < strings_view(r).len() && #[trigger] strings_view(r)[m] == n;
                if m < before.len() {
                    assert(before.contains(n));
                    let j = choose|j: int| 0 <= j < sub.len() && #[trigger] sub[j].0 == n && sub[j].1.contains(p@);
                    assert(sub1[j].0 == n);
                } else {
                    assert(sub1[i as int].0 == n);
                }
            }
        }
        i = i + 1;
    }
    assert(iv.subrange(0, inner.len() as int) =~= iv);
    r
}

/// Each reported path is contested, reported with exactly its claimants.
pub open spec fn conflicts_ok_partial(
    inner: Seq<(Seq<char>, Seq<Seq<char>>)>,
    conf: Seq<(Seq<char>, Seq<Seq<char>>)>,
) -> bool {
    forall|k: int|
        0 <= k < conf.len() ==> contested(inner, #[trigger] conf[k].0) && forall|n: Seq<char>|
            conf[k].1.contains(n) <==> claims(inner, n, conf[k].0)
}

pub open spec fn reported(conf: Seq<(Seq<char>, Seq<Seq<char>>)>, p: Seq<char>) -> bool {
    exists|k: int| 0 <= k < conf.len() && #[trigger] conf[k].0 == p
}

fn reported_exec(conf: &Vec<(String, Vec<String>)>, p: &str) -> (r: bool)
    ensures
        r == reported(conf@.map_values(|e: (String, Vec<String>)| entry_view(e)), p@),
{
    let ghost cv = conf@.map_values(|e: (String, Vec<String>)| entry_view(e));
    let mut i: usize = 0;
    while i < conf.len()
        invariant
            i <= conf.len(),
            cv == conf@.map_values(|e: (String, Vec<String>)| entry_view(e)),
            forall|k: int| 0 <= k < i ==> cv[k].0 != p@,
        decreases conf.len() - i,
    {
        if str_eq(conf[i].0.as_str(), p) {
            assert(cv[i as int].0 == p@);
            return true;
        }
        i = i + 1;
    }
    false
}

impl State {
    /// Names are unique, and each path is listed once under a name and once
    /// among the extra paths.
    pub open spec fn wf(&self) -> bool {
        names_unique(self@.inner) && paths_unique(self@.inner) && self@.extra.no_duplicates()
    }

    pub fn new(inner: Vec<(String, Vec<String>)>, extra: Vec<String>) -> (r: State)
        ensures
            r@.inner == inner@.map_values(|e: (String, Vec<String>)| entry_view(e)),
            r@.extra == extra@.map_values(|s: String| s@),
    {
        State { inner, extra }
    }

    /// Each name with the paths that hold it.
    pub fn inner(&self) -> (r: &Vec<(String, Vec<String>)>)
        ensures
            r@.map_values(|e: (String, Vec<String>)| entry_view(e)) == self@.inner,
    {
        &self.inner
    }

    /// The paths that hold no known object.
    pub fn extra(&self) -> (r: &Vec<String>)
        ensures
            r@.map_values(|s: String| s@) == self@.extra,
    {
        &self.extra
    }

    /// The desired layout from manifest entries: entries of unknown names
    /// are dropped; a path listed under two different names makes the whole
    /// manifest ambiguous.
    pub fn from_entries(entries: Vec<(String, Vec<String>)>, names: &Vec<String>) -> (r: Result<
        State,
        HoardError,
    >)
        ensures
            ({
                let known = known_entries(
                    entries@.map_values(|e: (String, Vec<String>)| entry_view(e)),
                    strings_view(*names),
                );
                match r {
                    Ok(s) => (forall|p: Seq<char>| !contested(known, p)) && s@.inner == known
                        && s@.extra.len() == 0,
                    Err(HoardError::AmbiguousManifest(conf)) => (exists|p: Seq<char>|
                        contested(known, p)) && conflicts_ok(
                        known,
                        conf@.map_values(|e: (String, Vec<String>)| entry_view(e)),
                    ),
                    Err(_) => false,
                }
            }),
            names_unique(entries@.map_values(|e: (String, Vec<String>)| entry_view(e)))
                && paths_unique(entries@.map_values(|e: (String, Vec<String>)| entry_view(e)))
                ==> (r matches Ok(s) ==> s.wf()),
    {
        proof {
            lemma_known_entries(
                entries@.map_values(|e: (String, Vec<String>)| entry_view(e)),
                strings_view(*names),
            );
        }
        let ghost ev = entries@.map_values(|e: (String, Vec<String>)| entry_view(e));
        let ghost nv = strings_view(*names);
        let mut inner: Vec<(String, Vec<String>)> = Vec::new();
        let mut i: usize = 0;
        assert(ev.subrange(0, 0) =~= Seq::<(Seq<char>, Seq<Seq<char>>)>::empty());
        while i < entries.len()
            invariant
                i <= entries.len(),
                ev == entries@.map_values(|e: (String, Vec<String>)| entry_view(e)),
                nv == strings_view(*names),
                inner@.map_values(|e: (String, Vec<String>)| entry_view(e)) == known_entries(
                    ev.subrange(0, i as int),
                    nv,
                ),
            decreases entries.len() - i,
        {
            assert(ev.subrange(0, i + 1).drop_last() =~= ev.subrange(0, i as int));
            let ghost before = inner@.map_values(|e: (String, Vec<String>)| entry_view(e));
            if contains_path(names, entries[i].0.as_str()) {
                let paths = copy_strings(&entries[i].1);
                inner.push((entries[i].0.clone(), paths));
                assert(inner@.map_values(|e: (String, Vec<String>)| entry_view(e)) =~= before.push(
                    ev[i as int],
                ));
            }
            i = i + 1;
        }
        assert(ev.subrange(0, entries.len() as int) =~= ev);
        let ghost known = inner@.map_values(|e: (String, Vec<String>)| entry_view(e));
        let mut conf: Vec<(String, Vec<String>)> = Vec::new();
        let mut k: usize = 0;
        while k < inner.len()
            invariant
                k <= inner.len(),
                known == inner@.map_values(|e: (String, Vec<String>)| entry_view(e)),
                conflicts_ok_partial(known, conf@.map_values(|e: (String, Vec<String>)| entry_view(e))),
                forall|j: int, p: Seq<char>|
                    0 <= j < k && #[trigger] known[j].1.contains(p) && contested(known, p)
                        ==> reported(conf@.map_values(|e: (String, Vec<String>)| entry_view(e)), p),
            decreases inner.len() - k,
        {
            let ghost pv = known[k as int].1;
            let mut q: usize = 0;
            while q < inner[k].1.len()
                invariant
                    k < inner.len(),
                    q <= inner[k as int].1.len(),
                    known == inner@.map_values(|e: (String, Vec<String>)| entry_view(e)),
                    pv == known[k as int].1,
                    conflicts_ok_partial(known, conf@.map_values(|e: (String, Vec<String>)| entry_view(e))),
                    forall|j: int, p: Seq<char>|
                        0 <= j < k && #[trigger] known[j].1.contains(p) && contested(known, p)
                            ==> reported(conf@.map_values(|e: (String, Vec<String>)| entry_view(e)), p),
                    forall|m: int|
                        0 <= m < q && contested(known, #[trigger] pv[m]) ==> reported(
                            conf@.map_values(|e: (String, Vec<String>)| entry_view(e)),
                            pv[m],
                        ),
                decreases inner[k as int].1.len() - q,
            {
                let p = inner[k].1[q].as_str();
                assert(p@ == pv[q as int]);
                let ns = claimants_of(&inner, p);
                let ghost cv = conf@.map_values(|e: (String, Vec<String>)| entry_view(e));
                if ns.len() >= 2 && !reported_exec(&conf, p) {
                    proof {
                        let n0 = strings_view(ns)[0];
                        let n1 = strings_view(ns)[1];
                        assert(strings_view(ns).contains(n0));
                        assert(strings_view(ns).contains(n1));
                        assert(claims(known, n1, p@));
                        assert(contested(known, p@));
                    }
                    conf.push((p.to_owned(), ns));
                    let ghost cv2 = conf@.map_values(|e: (String, Vec<String>)| entry_view(e));
                    assert(cv2 =~= cv.push(cv2.last()));
                    assert(cv2[cv.len() as int].0 == p@);
                    assert forall|p2: Seq<char>| reported(cv, p2) implies reported(cv2, p2) by {
                        let m = choose|m: int| 0 <= m < cv.len() && #[trigger] cv[m].0 == p2;
                        assert(cv2[m].0 == p2);
                    }
                } else {
                    proof {
                        if contested(known, p@) && !reported(cv, p@) {
                            let (n1, n2) = choose|n1: Seq<char>, n2: Seq<char>|
                                n1 != n2 && #[trigger] claims(known, n1, p@) && #[trigger] claims(known, n2, p@);
                            assert(strings_view(ns).contains(n1));
                            assert(strings_view(ns).contains(n2));
                            if ns.len() < 2 {
                                assert(strings_view(ns)[0] == n1);
                            }
                        }
                    }
                }
                q = q + 1;
            }
            proof {
                assert forall|j: int, p2: Seq<char>|
                    0 <= j < k + 1 && #[trigger] known[j].1.contains(p2) && contested(known, p2)
                        implies reported(conf@.map_values(|e: (String, Vec<String>)| entry_view(e)), p2) by {
                    if j == k {
                        let m = choose|m: int| 0 <= m < pv.len() && #[trigger] pv[m] == p2;
                        assert(contested(known, pv[m]));
                    }
                }
            }
            k = k + 1;
        }
        let ghost cv = conf@.map_values(|e: (String, Vec<String>)| entry_view(e));
        proof {
            assert forall|p: Seq<char>| contested(known, p) implies reported(cv, p) by {
                let (n1, n2) = choose|n1: Seq<char>, n2: Seq<char>|
                    n1 != n2 && #[trigger] claims(known, n1, p) && #[trigger] claims(known, n2, p);
                let j = choose|j: int| 0 <= j < known.len() && #[trigger] known[j].0 == n1 && known[j].1.contains(p);
                assert(known[j].1.contains(p));
            }
        }
        if conf.len() > 0 {
            assert(contested(known, cv[0].0));
            return Err(HoardError::AmbiguousManifest(conf));
        }
        assert forall|p: Seq<char>| !contested(known, p) by {
            if contested(known, p) {
                assert(reported(cv, p));
            }
        }
        Ok(State { inner, extra: Vec::new() })
    }

    /// The desired layout from a manifest text, as `from_entries` makes it
    /// from the manifest's entries.
    pub fn from_manifest(text: &str, names: &Vec<String>) -> (r: Result<State, HoardError>)
        ensures
            match manifest_of(text@) {
                None => r matches Err(HoardError::Parse),
                Some(es) => {
                    let known = known_entries(es, strings_view(*names));
                    (r matches Ok(s) ==> s.wf()) && match r {
                        Ok(s) => (forall|p: Seq<char>| !contested(known, p)) && s@.inner == known
                            && s@.extra.len() == 0,
                        Err(HoardError::AmbiguousManifest(conf)) => (exists|p: Seq<char>|
                            contested(known, p)) && conflicts_ok(
                            known,
                            conf@.map_values(|e: (String, Vec<String>)| entry_view(e)),
                        ),
                        Err(_) => false,
                    }
                },
            },
    {
        match parse_manifest(text) {
            Ok(entries) => State::from_entries(entries, names),
            Err(_) => Err(HoardError::Parse),
        }
    }
}

/// A path that the desired and the actual layout give to the same name gets
/// no change at all, not even an `Ignore`, unless it is an extra path.
pub proof fn law_diff_cancellation(
    desired: StateView,
    actual: StateView,
    objs: Seq<ObjectView>,
    p: Seq<char>,
    cs: Seq<ChangeView>,
)
    requires
        claimant(desired.inner, p) is Some,
        claimant(desired.inner, p) == claimant(actual.inner, p),
        !actual.extra.contains(p),
        changes_ok(cs, desired, actual, objs),
    ensures
        change_at(desired, actual, objs, p) is None,
        !has_path(cs, p),
{
    let n = claimant(desired.inner, p)->0;
    lemma_claimant_named(desired.inner, p);
    lemma_claimant_named(actual.inner, p);
    if has_path(cs, p) {
        let k = choose|k: int| 0 <= k < cs.len() && #[trigger] cs[k].path == p;
        assert(change_at(desired, actual, objs, cs[k].path) == Some(cs[k].kind));
    }
}

/// A path that the desired layout gives to object `n` and the actual one to
/// a different object `o` gets exactly one change: `Modify(o, n)`.
pub proof fn law_diff_modify(
    desired: StateView,
    actual: StateView,
    objs: Seq<ObjectView>,
    p: Seq<char>,
    cs: Seq<ChangeView>,
    n: ObjectView,
    o: ObjectView,
)
    requires
        claimant(desired.inner, p) matches Some(dn) && has_name(actual.inner, dn) && last_with_name(
            objs,
            dn,
        ) == Some(n),
        claimant(actual.inner, p) matches Some(an) && has_name(desired.inner, an) && last_with_name(
            objs,
            an,
        ) == Some(o),
        n != o,
        !actual.extra.contains(p),
        changes_ok(cs, desired, actual, objs),
        forall|q: Seq<char>| change_at(desired, actual, objs, q) is Some ==> has_path(cs, q),
    ensures
        change_at(desired, actual, objs, p) == Some(KindView::Modify(o, n)),
        exists|k: int|
            0 <= k < cs.len() && cs[k] == (ChangeView { path: p, kind: KindView::Modify(o, n) })
                && forall|j: int| 0 <= j < cs.len() && j != k ==> #[trigger] cs[j].path != p,
{
    assert(has_path(cs, p));
    let k = choose|k: int| 0 <= k < cs.len() && #[trigger] cs[k].path == p;
    assert(change_at(desired, actual, objs, cs[k].path) == Some(cs[k].kind));
    assert forall|j: int| 0 <= j < cs.len() && j != k implies #[trigger] cs[j].path != p by {
        lemma_lt_irreflexive(p);
        if j < k {
            assert(seq_lt(cs[j].path, cs[k].path));
        } else {
            assert(seq_lt(cs[k].path, cs[j].path));
        }
    }
}

proof fn lemma_claimant_named(inner: Seq<(Seq<char>, Seq<Seq<char>>)>, p: Seq<char>)
    ensures
        claimant(inner, p) matches Some(n) ==> has_name(inner, n),
    decreases inner.len(),
{
    if inner.len() > 0 {
        if inner.last().1.contains(p) {
            assert(inner[inner.len() - 1].0 == inner.last().0);
        } else {
            lemma_claimant_named(inner.drop_last(), p);
            if claimant(inner, p) is Some {
                let n = claimant(inner, p)->0;
                let i = choose|i: int| 0 <= i < inner.len() - 1 && #[trigger] inner.drop_last()[i].0 == n;
                assert(inner[i].0 == n);
            }
        }
    }
}

/// The file at `p` is tracked under the name `n`: its inode is that of the
/// entry named `n`.
pub open spec fn file_named(files: Seq<(Seq<char>, u64)>, objs: Seq<ObjectView>, n: Seq<char>, p: Seq<char>) -> bool {
    exists|k: int|
        0 <= k < files.len() && #[trigger] files[k].0 == p && tracked_as(objs, files[k].1, n)
}

/// The entry that the index finds for inode `ino` is named `n`.
pub open spec fn tracked_as(objs: Seq<ObjectView>, ino: u64, n: Seq<char>) -> bool {
    match last_with_ino(objs, ino) {
        Some(o) => o.name == n,
        None => false,
    }
}

/// The paths of the files whose inode no entry has, in walk order, each once.
pub open spec fn untracked_paths(files: Seq<(Seq<char>, u64)>, objs: Seq<ObjectView>) -> Seq<Seq<char>>
    decreases files.len(),
{
    if files.len() == 0 {
        Seq::empty()
    } else {
        let rest = untracked_paths(files.drop_last(), objs);
        let f = files.last();
        if last_with_ino(objs, f.1) is None && !rest.contains(f.0) {
            rest.push(f.0)
        } else {
            rest
        }
    }
}

/// The file at `p` has an inode that no entry has.
pub open spec fn file_untracked(files: Seq<(Seq<char>, u64)>, objs: Seq<ObjectView>, p: Seq<char>) -> bool {
    exists|k: int| 0 <= k < files.len() && #[trigger] files[k].0 == p && last_with_ino(objs, files[k].1) is None
}

pub open spec fn files_view(files: Vec<(String, u64)>) -> Seq<(Seq<char>, u64)> {
    files@.map_values(|f: (String, u64)| (f.0@, f.1))
}

pub open spec fn pairs_view(pairs: Vec<(String, String)>) -> Seq<(Seq<char>, Seq<char>)> {
    pairs@.map_values(|f: (String, String)| (f.0@, f.1@))
}

/// Adds `x` to `v` unless it is already there.
fn push_unique(v: &mut Vec<String>, x: String)
    ensures
        forall|q: Seq<char>| strings_view(*final(v)).contains(q) <==> (strings_view(*old(v)).contains(q) || q == x@),
        strings_view(*old(v)).no_duplicates() ==> strings_view(*final(v)).no_duplicates(),
        strings_view(*final(v)) == if strings_view(*old(v)).contains(x@) {
            strings_view(*old(v))
        } else {
            strings_view(*old(v)).push(x@)
        },
{
    let ghost before = strings_view(*v);
    if !contains_path(v, x.as_str()) {
        let ghost xv = x@;
        v.push(x);
        assert(strings_view(*v) =~= before.push(xv));
        assert forall|q: Seq<char>| strings_view(*v).contains(q) <==> (before.contains(q) || q == xv) by {
            if before.contains(q) {
                let m = choose|m: int| 0 <= m < before.len() && #[trigger] before[m] == q;
                assert(strings_view(*v)[m] == q);
            }
            if q == xv {
                assert(strings_view(*v)[before.len() as int] == q);
            }
        }
    }
}

proof fn lemma_prefix_contains<A>(s: Seq<A>, i: int)
    requires
        0 <= i < s.len(),
    ensures
        forall|q: A| #[trigger] s.subrange(0, i + 1).contains(q) <==> (s.subrange(0, i).contains(q) || q == s[i]),
{
    assert forall|q: A| #[trigger] s.subrange(0, i + 1).contains(q) <==> (s.subrange(0, i).contains(q) || q == s[i]) by {
        if s.subrange(0, i + 1).contains(q) {
            let j = choose|j: int| 0 <= j < i + 1 && #[trigger] s.subrange(0, i + 1)[j] == q;
            if j < i {
                assert(s.subrange(0, i)[j] == q);
            }
        }
        if s.subrange(0, i).contains(q) {
            let j = choose|j: int| 0 <= j < i && #[trigger] s.subrange(0, i)[j] == q;
            assert(s.subrange(0, i + 1)[j] == q);
        }
        if q == s[i] {
            assert(s.subrange(0, i + 1)[i] == q);
        }
    }
}

/// The paths of `pairs` under the name `n`, each once.
fn paths_named(pairs: &Vec<(String, String)>, n: &str) -> (r: Vec<String>)
    ensures
        forall|p: Seq<char>| strings_view(r).contains(p) <==> pairs_view(*pairs).contains((n@, p)),
        strings_view(r).no_duplicates(),
{
    let ghost pv = pairs_view(*pairs);
    let mut r: Vec<String> = Vec::new();
    let mut i: usize = 0;
    assert(pv.subrange(0, 0).len() == 0);
    while i < pairs.len()
        invariant
            i <= pairs.len(),
            pv == pairs_view(*pairs),
            strings_view(r).no_duplicates(),
            forall|p: Seq<char>| strings_view(r).contains(p) <==> pv.subrange(0, i as int).contains((n@, p)),
        decreases pairs.len() - i,
    {
        proof {
            lemma_prefix_contains(pv, i as int);
        }
        if str_eq(pairs[i].0.as_str(), n) {
            push_unique(&mut r, pairs[i].1.clone());
        }
        i = i + 1;
    }
    assert(pv.subrange(0, pairs.len() as int) =~= pv);
    r
}

impl State {
    /// The actual layout from the files found under a root, each with its
    /// inode: a file whose inode the index knows is listed under that entry's
    /// name, any other file is extra.
    pub fn from_files(files: &Vec<(String, u64)>, index: &Index) -> (r: State)
        ensures
            forall|p: Seq<char>| r@.extra.contains(p) <==> file_untracked(files_view(*files), index.objs(), p),
            forall|n: Seq<char>, p: Seq<char>|
                claims(r@.inner, n, p) <==> file_named(files_view(*files), index.objs(), n, p),
            r.wf(),
            r@.extra == untracked_paths(files_view(*files), index.objs()),
            forall|i: int| 0 <= i < r@.inner.len() ==> #[trigger] r@.inner[i].1.len() > 0,
            forall|n: Seq<char>|
                has_name(r@.inner, n) <==> exists|p: Seq<char>| #[trigger] file_named(files_view(*files), index.objs(), n, p),
    {
        let ghost fv = files_view(*files);
        let ghost objs = index.objs();
        let mut pairs: Vec<(String, String)> = Vec::new();
        let mut extra: Vec<String> = Vec::new();
        let mut k: usize = 0;
        while k < files.len()
            invariant
                k <= files.len(),
                fv == files_view(*files),
                objs == index.objs(),
                strings_view(extra).no_duplicates(),
                strings_view(extra) == untracked_paths(fv.subrange(0, k as int), objs),
                forall|p: Seq<char>| strings_view(extra).contains(p) <==> file_untracked(fv.subrange(0, k as int), objs, p),
                forall|n: Seq<char>, p: Seq<char>|
                    pairs_view(pairs).contains((n, p)) <==> file_named(fv.subrange(0, k as int), objs, n, p),
            decreases files.len() - k,
        {
            let ghost e0 = strings_view(extra);
            let ghost p0 = pairs_view(pairs);
            let ghost sub = fv.subrange(0, k as int);
            let ghost sub1 = fv.subrange(0, k + 1);
            assert(sub1 =~= sub.push(fv[k as int]));
            assert(sub1.drop_last() =~= sub);
            match index.by_ino(files[k].1) {
                Some(o) => {
                    pairs.push((o.name().to_owned(), files[k].0.clone()));
                    assert(pairs_view(pairs) =~= p0.push((o@.name, fv[k as int].0)));
                    assert(strings_view(extra) == e0);
                },
                None => {
                    push_unique(&mut extra, files[k].0.clone());
                    assert(pairs_view(pairs) == p0);
                },
            }
            assert forall|p: Seq<char>| strings_view(extra).contains(p) <==> file_untracked(sub1, objs, p) by {
                if file_untracked(sub1, objs, p) {
                    let j = choose|j: int| 0 <= j < sub1.len() && #[trigger] sub1[j].0 == p && last_with_ino(objs, sub1[j].1) is None;
                    if j < k {
                        assert(sub[j].0 == p);
                        assert(file_untracked(sub, objs, p));
                    }
                }
                if file_untracked(sub, objs, p) {
                    let j = choose|j: int| 0 <= j < sub.len() && #[trigger] sub[j].0 == p && last_with_ino(objs, sub[j].1) is None;
                    assert(sub1[j].0 == p);
                }
                if p == fv[k as int].0 && last_with_ino(objs, fv[k as int].1) is None {
                    assert(sub1[k as int].0 == p);
                }
            }
            assert forall|n: Seq<char>, p: Seq<char>| pairs_view(pairs).contains((n, p)) <==> file_named(sub1, objs, n, p) by {
                if file_named(sub1, objs, n, p) {
                    let j = choose|j: int| 0 <= j < sub1.len() && #[trigger] sub1[j].0 == p && tracked_as(objs, sub1[j].1, n);
                    if j < k {
                        assert(sub[j].0 == p);
                        assert(file_named(sub, objs, n, p));
                        assert(p0.contains((n, p)));
                        let m = choose|m: int| 0 <= m < p0.len() && #[trigger] p0[m] == (n, p);
                        assert(pairs_view(pairs)[m] == (n, p));
                    } else {
                        assert(pairs_view(pairs)[p0.len() as int] == (n, p));
                    }
                }
                if pairs_view(pairs).contains((n, p)) {
                    let m = choose|m: int| 0 <= m < pairs_view(pairs).len() && #[trigger] pairs_view(pairs)[m] == (n, p);
                    if m < p0.len() {
                        assert(p0.contains((n, p)));
                        assert(file_named(sub, objs, n, p));
                        let j = choose|j: int| 0 <= j < sub.len() && #[trigger] sub[j].0 == p && tracked_as(objs, sub[j].1, n);
                        assert(sub1[j].0 == p);
                    } else {
                        assert(sub1[k as int].0 == p);
                    }
                }
            }
            k = k + 1;
        }
        assert(fv.subrange(0, files.len() as int) =~= fv);
        let ghost pv = pairs_view(pairs);
        let mut inner: Vec<(String, Vec<String>)> = Vec::new();
        let mut i: usize = 0;
        while i < pairs.len()
            invariant
                i <= pairs.len(),
                pv == pairs_view(pairs),
                forall|n: Seq<char>, p: Seq<char>|
                    claims(inner@.map_values(|e: (String, Vec<String>)| entry_view(e)), n, p) ==> pv.contains((n, p)),
                forall|j: int, p: Seq<char>|
                    0 <= j < i && #[trigger] pv.contains((pv[j].0, p)) ==> claims(
                        inner@.map_values(|e: (String, Vec<String>)| entry_view(e)),
                        pv[j].0,
                        p,
                    ),
                forall|a: int, b: int|
                    0 <= a < b < inner.len() ==> inner@[a].0@ != inner@[b].0@,
                forall|a: int| 0 <= a < inner.len() ==> #[trigger] strings_view(inner@[a].1).no_duplicates()
                    && strings_view(inner@[a].1).len() > 0,
                forall|a: int| 0 <= a < inner.len() ==> exists|j: int| 0 <= j < i && #[trigger] pv[j].0 == #[trigger] inner@[a].0@,
            decreases pairs.len() - i,
        {
            let ghost iv0 = inner@.map_values(|e: (String, Vec<String>)| entry_view(e));
            if !has_name_exec(&inner, pairs[i].0.as_str()) {
                let paths = paths_named(&pairs, pairs[i].0.as_str());
                let ghost ps = strings_view(paths);
                assert(pv.contains((pv[i as int].0, pv[i as int].1)));
                assert(ps.contains(pv[i as int].1));
                inner.push((pairs[i].0.clone(), paths));
                let ghost iv1 = inner@.map_values(|e: (String, Vec<String>)| entry_view(e));
                assert(iv1 =~= iv0.push(iv1.last()));
                assert(iv1.last().1 =~= ps);
                assert(iv1.last().0 == pv[i as int].0);
                assert forall|a: int, b: int| 0 <= a < b < inner.len() implies inner@[a].0@ != inner@[b].0@ by {
                    if b == inner.len() - 1 {
                        assert(iv0[a].0 == inner@[a].0@);
                    }
                }
                assert forall|n: Seq<char>, p: Seq<char>| claims(iv1, n, p) implies pv.contains((n, p)) by {
                    let a = choose|a: int| 0 <= a < iv1.len() && #[trigger] iv1[a].0 == n && iv1[a].1.contains(p);
                    if a < iv0.len() {
                        assert(iv0[a].0 == n);
                    }
                }
                assert forall|j: int, p: Seq<char>|
                    0 <= j < i + 1 && #[trigger] pv.contains((pv[j].0, p)) implies claims(iv1, pv[j].0, p) by {
                    if pv[j].0 == pv[i as int].0 {
                        assert(iv1[iv0.len() as int].0 == pv[j].0);
                    } else {
                        let a = choose|a: int| 0 <= a < iv0.len() && #[trigger] iv0[a].0 == pv[j].0 && iv0[a].1.contains(p);
                        assert(iv1[a].0 == pv[j].0);
                    }
                }
                assert forall|a: int| 0 <= a < inner.len() implies #[trigger] inner@[a].0@ == inner@[a].0@ && exists|j: int| 0 <= j < i + 1 && #[trigger] pv[j].0 == inner@[a].0@ by {
                    if a == inner.len() - 1 {
                        assert(pv[i as int].0 == inner@[a].0@);
                    } else {
                        assert(iv0[a].0 == inner@[a].0@);
                    }
                }
            } else {
                assert forall|j: int, p: Seq<char>|
                    0 <= j < i + 1 && #[trigger] pv.contains((pv[j].0, p)) implies claims(iv0, pv[j].0, p) by {
                    if j == i {
                        let a = choose|a: int| 0 <= a < iv0.len() && #[trigger] iv0[a].0 == pv[j].0;
                        let jj = choose|jj: int| 0 <= jj < i && #[trigger] pv[jj].0 == inner@[a].0@;
                        assert(iv0[a].0 == inner@[a].0@);
                        assert(pv.contains((pv[jj].0, p)));
                    }
                }
            }
            i = i + 1;
        }
        let ghost iv = inner@.map_values(|e: (String, Vec<String>)| entry_view(e));
        assert forall|n: Seq<char>, p: Seq<char>| pv.contains((n, p)) implies claims(iv, n, p) by {
            let j = choose|j: int| 0 <= j < pv.len() && #[trigger] pv[j] == (n, p);
            assert(pv.contains((pv[j].0, p)));
        }
        let ghost ev = strings_view(extra);
        assert forall|a: int| 0 <= a < iv.len() implies (#[trigger] iv[a]).1.no_duplicates() && iv[a].1.len() > 0 by {
            assert(iv[a].1 =~= strings_view(inner@[a].1));
        }
        let st = State { inner, extra };
        assert(st@.extra =~= ev);
        assert(st@.inner =~= iv);
        assert forall|n: Seq<char>|
            has_name(iv, n) <==> exists|p: Seq<char>| #[trigger] file_named(fv, objs, n, p) by {
            if has_name(iv, n) {
                let a = choose|a: int| 0 <= a < iv.len() && #[trigger] iv[a].0 == n;
                assert(iv[a].1.len() > 0);
                assert(iv[a].1.contains(iv[a].1[0]));
                assert(claims(iv, n, iv[a].1[0]));
                assert(file_named(fv, objs, n, iv[a].1[0]));
            }
            if exists|p: Seq<char>| #[trigger] file_named(fv, objs, n, p) {
                let p = choose|p: Seq<char>| #[trigger] file_named(fv, objs, n, p);
                assert(claims(iv, n, p));
                let a = choose|a: int| 0 <= a < iv.len() && #[trigger] iv[a].0 == n && iv[a].1.contains(p);
                assert(has_name(iv, n));
            }
        }
        st
    }
}

} // verus!
