//! Catalog construction: associate scanned Pi sessions with registered JJ
//! workspaces and produce the catalog.
//!
//! Association is an exact match of normalized paths. The normalization
//! itself (canonicalizing existing paths) and the existence check read the
//! filesystem, so they reach this module as plain values: a [`RootProbe`]
//! per registered workspace and a key per session.

use vstd::prelude::*;

use crate::sessions::{opt_view, ScannedSession};
use crate::text::{chars_of, lex_lt, str_eq};
use crate::time::spec_format_iso8601_ms;

verus! {

/// A workspace registered in the current JJ repository.
#[derive(Debug, Clone, PartialEq, Eq)]
pub struct RegisteredWorkspace {
    /// Workspace name as reported by `jj workspace list`.
    pub name: String,
    /// Workspace root path as reported by `jj workspace list`.
    pub root: String,
}

/// What the filesystem says about a registered workspace root.
#[derive(Debug, Clone, PartialEq, Eq)]
pub struct RootProbe {
    /// Whether the root currently exists on disk.
    pub exists: bool,
    /// The root's association key (its normalized path).
    pub key: String,
}

/// Semantic catalog of workspaces and their Pi sessions.
#[derive(Debug, Clone, PartialEq, Eq)]
pub struct WorkspaceCatalog {
    /// Catalog schema version; consumers must reject unknown versions.
    pub schema_version: u32,
    /// Registered workspaces in `jj workspace list` order.
    pub workspaces: Vec<WorkspaceSummary>,
}

/// One workspace and its associated sessions.
#[derive(Debug, Clone, PartialEq, Eq)]
pub struct WorkspaceSummary {
    /// Workspace name.
    pub name: String,
    /// Workspace root path as registered.
    pub root: String,
    /// Whether the registered root currently exists on disk.
    pub available: bool,
    /// Why the workspace is unavailable.
    pub unavailable_reason: Option<String>,
    /// Sessions whose cwd matches this workspace, most recently modified
    /// first.
    pub sessions: Vec<SessionSummary>,
}

/// One Pi session associated with a workspace.
#[derive(Debug, Clone, PartialEq, Eq)]
pub struct SessionSummary {
    /// Path of the session `.jsonl` file.
    pub file: String,
    /// Session id from the header, when present.
    pub id: Option<String>,
    /// Derived title.
    pub title: String,
    /// Count of all message entries.
    pub message_count: u32,
    /// Effective modified time (UTC ISO-8601).
    pub modified: String,
}

/// The characters of a session summary.
pub struct SessionSummaryView {
    pub file: Seq<char>,
    pub id: Option<Seq<char>>,
    pub title: Seq<char>,
    pub message_count: u32,
    pub modified: Seq<char>,
}

impl View for SessionSummary {
    type V = SessionSummaryView;

    open spec fn view(&self) -> SessionSummaryView {
        SessionSummaryView {
            file: self.file@,
            id: opt_view(self.id),
            title: self.title@,
            message_count: self.message_count,
            modified: self.modified@,
        }
    }
}

/// The summary that a scanned session contributes to the catalog.
pub open spec fn summary_view(s: ScannedSession) -> SessionSummaryView {
    SessionSummaryView {
        file: s.file@,
        id: opt_view(s.session_id),
        title: s.title@,
        message_count: s.message_count,
        modified: spec_format_iso8601_ms(s.spec_modified_ms() as nat),
    }
}

/// Where a stable descending insertion places `x`: after every element
/// whose modified time is not older.
pub open spec fn insert_pos(t: Seq<SessionSummaryView>, x: SessionSummaryView) -> nat
    decreases t.len(),
{
    if t.len() == 0 {
        0
    } else if lex_lt(t[0].modified, x.modified) {
        0
    } else {
        1 + insert_pos(t.drop_first(), x)
    }
}

/// Summaries ordered by modified time, most recent first; equal times keep
/// the order they came in.
pub open spec fn sorted_by_recency(s: Seq<SessionSummaryView>) -> Seq<SessionSummaryView>
    decreases s.len(),
{
    if s.len() == 0 {
        Seq::empty()
    } else {
        let t = sorted_by_recency(s.drop_last());
        t.insert(insert_pos(t, s.last()) as int, s.last())
    }
}

/// The first registered workspace whose key is `key`.
pub open spec fn owner(probes: Seq<RootProbe>, key: Seq<char>) -> Option<int>
    decreases probes.len(),
{
    if probes.len() == 0 {
        None
    } else if probes[0].key@ == key {
        Some(0)
    } else {
        match owner(probes.drop_first(), key) {
            Some(i) => Some(i + 1),
            None => None,
        }
    }
}

/// Summaries of the sessions whose key belongs to workspace `k`, in scan
/// order.
pub open spec fn associated(
    sessions: Seq<ScannedSession>,
    keys: Seq<String>,
    probes: Seq<RootProbe>,
    k: int,
) -> Seq<SessionSummaryView>
    decreases sessions.len(),
{
    if sessions.len() == 0 || keys.len() == 0 {
        Seq::empty()
    } else {
        let p = associated(sessions.drop_last(), keys.drop_last(), probes, k);
        if owner(probes, keys.last()@) == Some(k) {
            p.push(summary_view(sessions.last()))
        } else {
            p
        }
    }
}

/// The reason given for a workspace whose root is missing.
pub open spec fn missing_root_reason() -> Seq<char> {
    "workspace root not found on disk"@
}

} // verus!
verus! {

/// Views of a sequence of summaries.
pub open spec fn views(s: Seq<SessionSummary>) -> Seq<SessionSummaryView> {
    s.map_values(|x: SessionSummary| x@)
}

/// Whether `a` sorts before `b` (`String` order).
pub fn lex_less(a: &str, b: &str) -> (r: bool)
    ensures
        r == lex_lt(a@, b@),
{
    let x = chars_of(a);
    let y = chars_of(b);
    let mut i: usize = 0;
    assert(x@.skip(0) =~= x@ && y@.skip(0) =~= y@);
    while i < x.len() && i < y.len() && x[i] == y[i]
        invariant
            i <= x@.len(),
            i <= y@.len(),
            x@ == a@,
            y@ == b@,
            lex_lt(a@, b@) == lex_lt(x@.skip(i as int), y@.skip(i as int)),
        decreases x.len() - i,
    {
        proof {
            assert(x@.skip(i as int).drop_first() =~= x@.skip(i + 1));
            assert(y@.skip(i as int).drop_first() =~= y@.skip(i + 1));
        }
        i = i + 1;
    }
    if i == x.len() {
        i < y.len()
    } else if i == y.len() {
        false
    } else {
        x[i] < y[i]
    }
}

fn copy_summary(s: &SessionSummary) -> (r: SessionSummary)
    ensures
        r@ == s@,
{
    SessionSummary {
        file: s.file.clone(),
        id: match &s.id {
            Some(i) => Some(i.clone()),
            None => None,
        },
        title: s.title.clone(),
        message_count: s.message_count,
        modified: s.modified.clone(),
    }
}

proof fn lemma_insert_pos(t: Seq<SessionSummaryView>, x: SessionSummaryView, j: int)
    requires
        0 <= j <= t.len(),
        forall|i: int| 0 <= i < j ==> !lex_lt(#[trigger] t[i].modified, x.modified),
        j == t.len() || lex_lt(t[j].modified, x.modified),
    ensures
        insert_pos(t, x) == j,
    decreases j,
{
    if j > 0 {
        let u = t.drop_first();
        assert forall|i: int| 0 <= i < j - 1 implies !lex_lt(#[trigger] u[i].modified, x.modified) by {
            assert(u[i] == t[i + 1]);
        }
        if j < t.len() {
            assert(u[j - 1] == t[j]);
        }
        lemma_insert_pos(u, x, j - 1);
    }
}

/// Summaries ordered most recently modified first, stably.
pub fn sort_by_recency(items: &Vec<SessionSummary>) -> (out: Vec<SessionSummary>)
    ensures
        views(out@) == sorted_by_recency(views(items@)),
{
    let mut out: Vec<SessionSummary> = Vec::new();
    let mut i: usize = 0;
    while i < items.len()
        invariant
            i <= items@.len(),
            views(out@) == sorted_by_recency(views(items@).take(i as int)),
        decreases items.len() - i,
    {
        let x = copy_summary(&items[i]);
        let mut j: usize = 0;
        while j < out.len() && !lex_less(out[j].modified.as_str(), x.modified.as_str())
            invariant
                j <= out@.len(),
                forall|k: int| 0 <= k < j ==> !lex_lt(#[trigger] views(out@)[k].modified, x@.modified),
            decreases out.len() - j,
        {
            j = j + 1;
        }
        proof {
            lemma_insert_pos(views(out@), x@, j as int);
            let prefix = views(items@).take(i + 1);
            assert(prefix.drop_last() =~= views(items@).take(i as int));
            assert(prefix.last() == x@);
        }
        let ghost before = out@;
        out.insert(j, x);
        proof {
            assert(views(out@) =~= views(before).insert(j as int, x@));
        }
        i = i + 1;
    }
    assert(views(items@).take(items@.len() as int) =~= views(items@));
    out
}

} // verus!
verus! {

proof fn lemma_owner(probes: Seq<RootProbe>, key: Seq<char>, j: int)
    requires
        0 <= j <= probes.len(),
        forall|i: int| 0 <= i < j ==> #[trigger] probes[i].key@ != key,
    ensures
        j < probes.len() && probes[j].key@ == key ==> owner(probes, key) == Some(j),
        j == probes.len() ==> owner(probes, key) is None,
    decreases j,
{
    if j > 0 {
        let u = probes.drop_first();
        assert forall|i: int| 0 <= i < j - 1 implies #[trigger] u[i].key@ != key by {
            assert(u[i] == probes[i + 1]);
        }
        if j < probes.len() {
            assert(u[j - 1] == probes[j]);
        }
        lemma_owner(u, key, j - 1);
    }
}

/// The first registered workspace whose association key is `key`.
fn find_owner(probes: &[RootProbe], key: &str) -> (r: Option<usize>)
    ensures
        match r {
            Some(i) => owner(probes@, key@) == Some(i as int),
            None => owner(probes@, key@) is None,
        },
{
    let mut j: usize = 0;
    while j < probes.len()
        invariant
            j <= probes@.len(),
            forall|i: int| 0 <= i < j ==> #[trigger] probes@[i].key@ != key@,
        decreases probes.len() - j,
    {
        if str_eq(probes[j].key.as_str(), key) {
            proof {
                lemma_owner(probes@, key@, j as int);
            }
            return Some(j);
        }
        j = j + 1;
    }
    proof {
        lemma_owner(probes@, key@, j as int);
    }
    None
}

/// The catalog entry of a scanned session.
fn summarize_for_catalog(s: &ScannedSession) -> (r: SessionSummary)
    ensures
        r@ == summary_view(*s),
{
    SessionSummary {
        file: s.file.clone(),
        id: match &s.session_id {
            Some(i) => Some(i.clone()),
            None => None,
        },
        title: s.title.clone(),
        message_count: s.message_count,
        modified: s.modified_iso(),
    }
}

/// Build the catalog from registered workspaces and scanned sessions.
///
/// `probes[k]` tells whether `registered[k]`'s root exists and gives its
/// association key; `session_keys[i]` is the association key of
/// `sessions[i]`'s cwd. A session belongs to the first registered workspace
/// with the same key; sessions matching no workspace are omitted, never
/// misattributed.
pub fn build_catalog(
    registered: &[RegisteredWorkspace],
    probes: &[RootProbe],
    sessions: Vec<ScannedSession>,
    session_keys: &[String],
) -> (r: WorkspaceCatalog)
    requires
        probes@.len() == registered@.len(),
        session_keys@.len() == sessions@.len(),
    ensures
        r.schema_version == 1,
        r.workspaces@.len() == registered@.len(),
        forall|k: int|
            0 <= k < registered@.len() ==> {
                let w = #[trigger] r.workspaces@[k];
                &&& w.name@ == registered@[k].name@
                &&& w.root@ == registered@[k].root@
                &&& w.available == probes@[k].exists
                &&& w.available ==> w.unavailable_reason is None
                &&& !w.available ==> opt_view(w.unavailable_reason) == Some(missing_root_reason())
                &&& views(w.sessions@) == sorted_by_recency(
                    associated(sessions@, session_keys@, probes@, k),
                )
                &&& w.sessions@.len() == owned_count(session_keys@, probes@, k)
            },
        forall|k: int, j: int|
            #![trigger r.workspaces@[k], sessions@[j]]
            0 <= k < registered@.len() && 0 <= j < sessions@.len() && owner(
                probes@,
                session_keys@[j]@,
            ) == Some(k) ==> views(r.workspaces@[k].sessions@).contains(summary_view(sessions@[j])),
{
    let mut owners: Vec<Option<usize>> = Vec::new();
    let mut i: usize = 0;
    while i < sessions.len()
        invariant
            i <= sessions@.len(),
            session_keys@.len() == sessions@.len(),
            owners@.len() == i,
            forall|j: int|
                0 <= j < i ==> match #[trigger] owners@[j] {
                    Some(o) => owner(probes@, session_keys@[j]@) == Some(o as int),
                    None => owner(probes@, session_keys@[j]@) is None,
                },
        decreases sessions.len() - i,
    {
        owners.push(find_owner(probes, session_keys[i].as_str()));
        i = i + 1;
    }
    let mut workspaces: Vec<WorkspaceSummary> = Vec::new();
    let mut k: usize = 0;
    while k < registered.len()
        invariant
            k <= registered@.len(),
            probes@.len() == registered@.len(),
            session_keys@.len() == sessions@.len(),
            owners@.len() == sessions@.len(),
            forall|j: int|
                0 <= j < sessions@.len() ==> match #[trigger] owners@[j] {
                    Some(o) => owner(probes@, session_keys@[j]@) == Some(o as int),
                    None => owner(probes@, session_keys@[j]@) is None,
                },
            workspaces@.len() == k,
            forall|q: int|
                0 <= q < k ==> {
                    let w = #[trigger] workspaces@[q];
                    &&& w.name@ == registered@[q].name@
                    &&& w.root@ == registered@[q].root@
                    &&& w.available == probes@[q].exists
                    &&& w.available ==> w.unavailable_reason is None
                    &&& !w.available ==> opt_view(w.unavailable_reason) == Some(
                        missing_root_reason(),
                    )
                    &&& views(w.sessions@) == sorted_by_recency(
                        associated(sessions@, session_keys@, probes@, q),
                    )
                },
        decreases registered.len() - k,
    {
        let mut list: Vec<SessionSummary> = Vec::new();
        let mut i: usize = 0;
        while i < sessions.len()
            invariant
                i <= sessions@.len(),
                k < registered@.len(),
                session_keys@.len() == sessions@.len(),
                owners@.len() == sessions@.len(),
                forall|j: int|
                    0 <= j < sessions@.len() ==> match #[trigger] owners@[j] {
                        Some(o) => owner(probes@, session_keys@[j]@) == Some(o as int),
                        None => owner(probes@, session_keys@[j]@) is None,
                    },
                views(list@) == associated(
                    sessions@.take(i as int),
                    session_keys@.take(i as int),
                    probes@,
                    k as int,
                ),
            decreases sessions.len() - i,
        {
            proof {
                assert(sessions@.take(i + 1).drop_last() =~= sessions@.take(i as int));
                assert(session_keys@.take(i + 1).drop_last() =~= session_keys@.take(i as int));
                assert(sessions@.take(i + 1).last() == sessions@[i as int]);
                assert(session_keys@.take(i + 1).last() == session_keys@[i as int]);
            }
            let ghost before = list@;
            let matches_k = match owners[i] {
                Some(o) => o == k,
                None => false,
            };
            if matches_k {
                list.push(summarize_for_catalog(&sessions[i]));
                assert(views(list@) =~= views(before).push(summary_view(sessions@[i as int])));
            }
            i = i + 1;
        }
        proof {
            assert(sessions@.take(sessions@.len() as int) =~= sessions@);
            assert(session_keys@.take(session_keys@.len() as int) =~= session_keys@);
        }
        let available = probes[k].exists;
        let reason = if available {
            None
        } else {
            Some(String::from_str("workspace root not found on disk"))
        };
        workspaces.push(
            WorkspaceSummary {
                name: registered[k].name.clone(),
                root: registered[k].root.clone(),
                available,
                unavailable_reason: reason,
                sessions: sort_by_recency(&list),
            },
        );
        k = k + 1;
    }
    proof {
        broadcast use vstd::seq_lib::group_to_multiset_ensures;
        assert forall|k: int|
            0 <= k < registered@.len() implies (#[trigger] workspaces@[k]).sessions@.len()
            == owned_count(session_keys@, probes@, k) && (forall|j: int|
            0 <= j < sessions@.len() && owner(probes@, session_keys@[j]@) == Some(k) ==> views(
                workspaces@[k].sessions@,
            ).contains(#[trigger] summary_view(sessions@[j]))) by {
            let a = associated(sessions@, session_keys@, probes@, k);
            lemma_associated_complete(sessions@, session_keys@, probes@, k);
            lemma_recency_order(a);
            let v = views(workspaces@[k].sessions@);
            assert forall|j: int|
                0 <= j < sessions@.len() && owner(probes@, session_keys@[j]@) == Some(k) implies v.contains(
                #[trigger] summary_view(sessions@[j]),
            ) by {
                let x = summary_view(sessions@[j]);
                assert(a.contains(x));
                assert(a.to_multiset().count(x) > 0);
                assert(v.to_multiset().count(x) > 0);
            }
        }
    }
    WorkspaceCatalog { schema_version: 1, workspaces }
}

} // verus!
verus! {

proof fn lemma_owner_key(probes: Seq<RootProbe>, key: Seq<char>)
    ensures
        owner(probes, key) matches Some(k) ==> 0 <= k < probes.len() && probes[k].key@ == key,
    decreases probes.len(),
{
    if probes.len() > 0 && probes[0].key@ != key {
        lemma_owner_key(probes.drop_first(), key);
    }
}

/// Number of sessions whose key belongs to workspace `k`.
pub open spec fn owned_count(keys: Seq<String>, probes: Seq<RootProbe>, k: int) -> nat
    decreases keys.len(),
{
    if keys.len() == 0 {
        0
    } else {
        owned_count(keys.drop_last(), probes, k) + if owner(probes, keys.last()@) == Some(k) {
            1nat
        } else {
            0
        }
    }
}

/// No session is lost: workspace `k` lists exactly as many sessions as there
/// are scanned sessions whose key belongs to it, and every one of them,
/// whatever its content.
pub proof fn lemma_associated_complete(
    sessions: Seq<ScannedSession>,
    keys: Seq<String>,
    probes: Seq<RootProbe>,
    k: int,
)
    requires
        keys.len() == sessions.len(),
    ensures
        associated(sessions, keys, probes, k).len() == owned_count(keys, probes, k),
        forall|j: int|
            0 <= j < sessions.len() && owner(probes, keys[j]@) == Some(k) ==> associated(
                sessions,
                keys,
                probes,
                k,
            ).contains(#[trigger] summary_view(sessions[j])),
    decreases sessions.len(),
{
    if sessions.len() > 0 {
        let s0 = sessions.drop_last();
        let k0 = keys.drop_last();
        lemma_associated_complete(s0, k0, probes, k);
        let p = associated(s0, k0, probes, k);
        let a = associated(sessions, keys, probes, k);
        assert forall|j: int|
            0 <= j < sessions.len() && owner(probes, keys[j]@) == Some(k) implies a.contains(
            #[trigger] summary_view(sessions[j]),
        ) by {
            if j < s0.len() {
                assert(s0[j] == sessions[j] && k0[j] == keys[j]);
                assert(p.contains(summary_view(s0[j])));
                let x = choose|x: int| 0 <= x < p.len() && p[x] == summary_view(s0[j]);
                assert(a[x] == p[x]);
            } else {
                assert(keys[j] == keys.last());
                assert(a[a.len() - 1] == summary_view(sessions[j]));
            }
        }
    }
}

/// Sessions are never misattributed: every session listed under workspace
/// `k` is the summary of a scanned session whose key is `k`'s key, so a
/// session whose key matches no workspace is listed nowhere.
pub proof fn lemma_never_misattributed(
    sessions: Seq<ScannedSession>,
    keys: Seq<String>,
    probes: Seq<RootProbe>,
    k: int,
)
    requires
        keys.len() == sessions.len(),
    ensures
        forall|i: int|
            0 <= i < associated(sessions, keys, probes, k).len() ==> exists|j: int|
                0 <= j < sessions.len() && #[trigger] associated(sessions, keys, probes, k)[i]
                    == summary_view(sessions[j]) && keys[j]@ == probes[k].key@,
    decreases sessions.len(),
{
    if sessions.len() > 0 {
        let s0 = sessions.drop_last();
        let k0 = keys.drop_last();
        lemma_never_misattributed(s0, k0, probes, k);
        let p = associated(s0, k0, probes, k);
        let a = associated(sessions, keys, probes, k);
        lemma_owner_key(probes, keys.last()@);
        assert forall|i: int| 0 <= i < a.len() implies exists|j: int|
            0 <= j < sessions.len() && #[trigger] a[i] == summary_view(sessions[j]) && keys[j]@
                == probes[k].key@ by {
            if i < p.len() {
                assert(a[i] == p[i]);
                let j = choose|j: int|
                    0 <= j < s0.len() && #[trigger] p[i] == summary_view(s0[j]) && k0[j]@
                        == probes[k].key@;
                assert(s0[j] == sessions[j] && k0[j] == keys[j]);
            } else {
                let j = sessions.len() - 1;
                assert(a[i] == summary_view(sessions[j]));
                assert(keys[j] == keys.last());
            }
        }
    }
}

/// Most recently modified first: no summary is older than a later one.
pub open spec fn is_recency_ordered(s: Seq<SessionSummaryView>) -> bool {
    forall|i: int, j: int| 0 <= i < j < s.len() ==> !lex_lt(#[trigger] s[i].modified, #[trigger] s[j].modified)
}

proof fn lemma_lex_asym(a: Seq<char>, b: Seq<char>)
    ensures
        lex_lt(a, b) ==> !lex_lt(b, a),
    decreases a.len(),
{
    if a.len() > 0 && b.len() > 0 && a[0] == b[0] {
        lemma_lex_asym(a.drop_first(), b.drop_first());
    }
}

proof fn lemma_lex_trans(a: Seq<char>, b: Seq<char>, c: Seq<char>)
    ensures
        lex_lt(a, b) && lex_lt(b, c) ==> lex_lt(a, c),
    decreases a.len(),
{
    if a.len() > 0 && b.len() > 0 && c.len() > 0 {
        lemma_lex_trans(a.drop_first(), b.drop_first(), c.drop_first());
    }
}

proof fn lemma_lex_total(a: Seq<char>, b: Seq<char>)
    ensures
        a == b || lex_lt(a, b) || lex_lt(b, a),
    decreases a.len(),
{
    if a.len() > 0 && b.len() > 0 && a[0] == b[0] {
        lemma_lex_total(a.drop_first(), b.drop_first());
        if a.drop_first() == b.drop_first() {
            assert(a =~= seq![a[0]] + a.drop_first());
            assert(b =~= seq![b[0]] + b.drop_first());
        }
    } else if a.len() == 0 && b.len() == 0 {
        assert(a =~= b);
    }
}

proof fn lemma_insert_pos_facts(t: Seq<SessionSummaryView>, x: SessionSummaryView)
    ensures
        insert_pos(t, x) <= t.len(),
        forall|i: int| 0 <= i < insert_pos(t, x) ==> !lex_lt(#[trigger] t[i].modified, x.modified),
        insert_pos(t, x) < t.len() ==> lex_lt(t[insert_pos(t, x) as int].modified, x.modified),
    decreases t.len(),
{
    if t.len() > 0 && !lex_lt(t[0].modified, x.modified) {
        let u = t.drop_first();
        lemma_insert_pos_facts(u, x);
        assert forall|i: int| 0 <= i < insert_pos(t, x) implies !lex_lt(#[trigger] t[i].modified, x.modified) by {
            if i > 0 {
                assert(t[i] == u[i - 1]);
            }
        }
        if insert_pos(t, x) < t.len() {
            assert(t[insert_pos(t, x) as int] == u[insert_pos(u, x) as int]);
        }
    }
}

proof fn lemma_filter_none<A>(u: Seq<A>, pred: spec_fn(A) -> bool)
    requires
        forall|i: int| 0 <= i < u.len() ==> !pred(#[trigger] u[i]),
    ensures
        u.filter(pred).len() == 0,
    decreases u.len(),
{
    reveal(Seq::filter);
    if u.len() > 0 {
        let d = u.drop_last();
        assert forall|i: int| 0 <= i < d.len() implies !pred(#[trigger] d[i]) by {
            assert(d[i] == u[i]);
        }
        lemma_filter_none(d, pred);
        assert(!pred(u[u.len() - 1]));
    }
}

/// Sorting by recency is stable: the sessions with any one modified time
/// keep the order they came in.
pub proof fn lemma_recency_order_stable(s: Seq<SessionSummaryView>, m: Seq<char>)
    ensures
        sorted_by_recency(s).filter(|v: SessionSummaryView| v.modified == m) == s.filter(
            |v: SessionSummaryView| v.modified == m,
        ),
    decreases s.len(),
{
    let pred = |v: SessionSummaryView| v.modified == m;
    reveal(Seq::filter);
    if s.len() > 0 {
        let init = s.drop_last();
        let x = s.last();
        lemma_recency_order_stable(init, m);
        lemma_recency_order(init);
        let t = sorted_by_recency(init);
        lemma_insert_pos_facts(t, x);
        let p = insert_pos(t, x) as int;
        let r = t.insert(p, x);
        assert(r == sorted_by_recency(s));
        let a = t.take(p);
        let b = t.skip(p);
        assert(t =~= a + b);
        assert(r =~= a + seq![x] + b);
        Seq::filter_distributes_over_add(a, b, pred);
        Seq::filter_distributes_over_add(a + seq![x], b, pred);
        Seq::filter_distributes_over_add(a, seq![x], pred);
        assert(seq![x].drop_last() =~= Seq::<SessionSummaryView>::empty());
        assert(s.filter(pred) == if pred(x) {
            init.filter(pred).push(x)
        } else {
            init.filter(pred)
        });
        if pred(x) {
            assert forall|i: int| 0 <= i < b.len() implies !pred(#[trigger] b[i]) by {
                let j = p + i;
                assert(b[i] == t[j]);
                if j == p {
                    lemma_lex_asym(t[p].modified, x.modified);
                } else {
                    assert(!lex_lt(t[p].modified, t[j].modified));
                }
            }
            lemma_filter_none(b, pred);
            assert(b.filter(pred) =~= Seq::<SessionSummaryView>::empty());
            assert(seq![x].filter(pred) =~= seq![x]);
            assert(r.filter(pred) =~= a.filter(pred).push(x));
            assert(t.filter(pred) =~= a.filter(pred));
        } else {
            assert(Seq::<SessionSummaryView>::empty().filter(pred) =~= Seq::<SessionSummaryView>::empty());
            assert(!pred(seq![x].last()));
            assert(seq![x].filter(pred) == seq![x].drop_last().filter(pred));
            assert(seq![x].filter(pred) =~= Seq::<SessionSummaryView>::empty());
            assert(r.filter(pred) =~= t.filter(pred));
        }
    }
}

/// Ordering sessions by recency puts the most recently modified first and
/// keeps exactly the same sessions.
pub proof fn lemma_recency_order(s: Seq<SessionSummaryView>)
    ensures
        is_recency_ordered(sorted_by_recency(s)),
        sorted_by_recency(s).to_multiset() == s.to_multiset(),
        sorted_by_recency(s).len() == s.len(),
    decreases s.len(),
{
    if s.len() == 0 {
        assert(sorted_by_recency(s) =~= s);
    } else {
        let t = sorted_by_recency(s.drop_last());
        let x = s.last();
        lemma_recency_order(s.drop_last());
        lemma_insert_pos_facts(t, x);
        let p = insert_pos(t, x) as int;
        let r = t.insert(p, x);
        assert(s.drop_last().push(x) =~= s);
        vstd::seq_lib::to_multiset_insert(t, p, x);
        vstd::seq_lib::to_multiset_build(s.drop_last(), x);
        assert(r.to_multiset() == s.to_multiset());
        assert forall|i: int, j: int| 0 <= i < j < r.len() implies !lex_lt(
            #[trigger] r[i].modified,
            #[trigger] r[j].modified,
        ) by {
            if j < p {
                assert(r[i] == t[i] && r[j] == t[j]);
            } else if j == p {
                assert(r[j] == x && r[i] == t[i]);
            } else if i == p {
                assert(r[i] == x && r[j] == t[j - 1]);
                lemma_insert_pos_facts(t, x);
                if j - 1 == p {
                    lemma_lex_asym(t[p].modified, x.modified);
                } else {
                    assert(!lex_lt(t[p].modified, t[j - 1].modified));
                    lemma_lex_total(t[p].modified, t[j - 1].modified);
                    lemma_lex_trans(t[j - 1].modified, t[p].modified, x.modified);
                    lemma_lex_asym(t[j - 1].modified, x.modified);
                }
            } else if i < p {
                assert(r[i] == t[i] && r[j] == t[j - 1]);
            } else {
                assert(r[i] == t[i - 1] && r[j] == t[j - 1]);
            }
        }
    }
}

} // verus!
