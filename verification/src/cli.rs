//! Decisions and texts of the `qingluan` command line: session selector
//! entries, human-readable catalog lines, task requests and the
//! machine-readable error payload.

use vstd::prelude::*;

use crate::catalog::{SessionSummary, WorkspaceCatalog, WorkspaceSummary};
use crate::sessions::opt_view;
use crate::text::{
    chars_of, collapse_whitespace, collapsed, decimal, is_digit, is_one_line, is_white_space,
    lemma_collapsed_one_line, push_char, push_decimal, push_str,
    str_eq, string_from_chars,
};

verus! {

/// A session title collapsed to one line of at most `max_chars` characters:
/// whitespace runs become single spaces, and a longer line keeps its first
/// `max_chars - 1` characters followed by `…`.
pub open spec fn spec_display_title(title: Seq<char>, max_chars: nat) -> Seq<char> {
    let line = collapsed(title);
    if line.len() <= max_chars {
        line
    } else {
        line.take(if max_chars >= 1 {
            max_chars - 1
        } else {
            0
        }).push('\u{2026}')
    }
}

/// Collapse a session title into one short display line.
pub fn display_title(title: &str, max_chars: usize) -> (r: String)
    ensures
        r@ == spec_display_title(title@, max_chars as nat),
{
    let line = collapse_whitespace(chars_of(title).as_slice());
    if line.len() <= max_chars {
        return string_from_chars(line.as_slice());
    }
    let keep: usize = if max_chars >= 1 {
        max_chars - 1
    } else {
        0
    };
    let mut out = String::new();
    let mut i: usize = 0;
    while i < keep
        invariant
            i <= keep,
            keep < line@.len(),
            out@ == line@.take(i as int),
        decreases keep - i,
    {
        push_char(&mut out, line[i]);
        i = i + 1;
        assert(out@ =~= line@.take(i as int));
    }
    push_char(&mut out, '\u{2026}');
    out
}

/// A displayed title is one line, whitespace collapsed to plain spaces, of
/// at most `max_chars` characters when `max_chars` is at least 1.
pub proof fn lemma_display_title_one_line(title: Seq<char>, max_chars: nat)
    ensures
        is_one_line(spec_display_title(title, max_chars)),
        max_chars >= 1 ==> spec_display_title(title, max_chars).len() <= max_chars,
{
    let line = collapsed(title);
    lemma_collapsed_one_line(title);
    if line.len() > max_chars {
        let k: int = if max_chars >= 1 {
            max_chars - 1
        } else {
            0
        };
        let r = line.take(k).push('\u{2026}');
        assert forall|i: int| 0 <= i < r.len() implies #[trigger] r[i] == ' ' || !is_white_space(r[i]) by {
            if i < k {
                assert(r[i] == line[i]);
            }
        }
    }
}

} // verus!
verus! {

/// Views of a sequence of strings.
pub open spec fn string_views(s: Seq<String>) -> Seq<Seq<char>> {
    s.map_values(|x: String| x@)
}

/// Number of occurrences of `x` in `s`.
pub open spec fn count_of(s: Seq<Seq<char>>, x: Seq<char>) -> nat
    decreases s.len(),
{
    if s.len() == 0 {
        0
    } else {
        count_of(s.drop_last(), x) + if s.last() == x {
            1nat
        } else {
            0
        }
    }
}

/// ` [#n]`, the suffix that tells the `n`-th repeat of a label apart.
pub open spec fn counter_suffix(n: nat) -> Seq<char> {
    " [#"@ + decimal(n) + "]"@
}

/// The `n`-th occurrence of `label`, made distinct from the earlier ones.
pub open spec fn numbered_label(label: Seq<char>, n: nat) -> Seq<char> {
    if n <= 1 {
        label
    } else {
        label + counter_suffix(n)
    }
}

/// First slot from `n` on whose candidate label is not among `handed`,
/// looking at most `fuel` slots further.
pub open spec fn free_slot_from(label: Seq<char>, handed: Seq<Seq<char>>, n: nat, fuel: nat) -> nat
    decreases fuel,
{
    if fuel == 0 || !handed.contains(numbered_label(label, n)) {
        n
    } else {
        free_slot_from(label, handed, n + 1, (fuel - 1) as nat)
    }
}

/// The first slot whose candidate for `label` has not been handed out.
pub open spec fn free_slot(label: Seq<char>, handed: Seq<Seq<char>>) -> nat {
    free_slot_from(label, handed, 1, handed.len())
}

/// The label handed out for `label` after the labels `handed`: the label
/// itself when it is free, else the label followed by ` [#n]` for the
/// smallest `n >= 2` that is free.
pub open spec fn handed_label(label: Seq<char>, handed: Seq<Seq<char>>) -> Seq<char> {
    numbered_label(label, free_slot(label, handed))
}

/// Labels handed out for `bases`, one after the other.
pub open spec fn unique_labels(bases: Seq<Seq<char>>) -> Seq<Seq<char>>
    decreases bases.len(),
{
    if bases.len() == 0 {
        Seq::empty()
    } else {
        let p = unique_labels(bases.drop_last());
        p.push(handed_label(bases.last(), p))
    }
}

/// Each label numbered by its occurrence: the `n`-th occurrence of a label
/// is the label itself when `n` is 1, else the label followed by ` [#n]`.
pub open spec fn numbered_labels(bases: Seq<Seq<char>>) -> Seq<Seq<char>> {
    Seq::new(
        bases.len(),
        |i: int| numbered_label(bases[i], count_of(bases.take(i), bases[i]) + 1),
    )
}

/// Whether `c` is among `labels`.
fn contains_label(labels: &Vec<String>, c: &str) -> (r: bool)
    ensures
        r == string_views(labels@).contains(c@),
{
    let mut i: usize = 0;
    while i < labels.len()
        invariant
            i <= labels@.len(),
            forall|j: int| 0 <= j < i ==> #[trigger] labels@[j]@ != c@,
        decreases labels.len() - i,
    {
        if str_eq(labels[i].as_str(), c) {
            assert(string_views(labels@)[i as int] == c@);
            return true;
        }
        i = i + 1;
    }
    assert forall|j: int| 0 <= j < string_views(labels@).len() implies string_views(labels@)[j] != c@ by {
        assert(string_views(labels@)[j] == labels@[j]@);
    }
    false
}

/// Make a flat label unique among the labels handed out so far.
///
/// `seen` holds the labels handed out so far. The result is the label
/// itself when it is not among them, else the label followed by ` [#n]`
/// for the smallest `n >= 2` that gives a label not among them; it is
/// appended to `seen`.
pub fn unique_label(seen: &mut Vec<String>, label: String) -> (r: String)
    requires
        old(seen)@.len() < u32::MAX,
    ensures
        r@ == handed_label(label@, string_views(old(seen)@)),
        !string_views(old(seen)@).contains(r@),
        string_views(final(seen)@) == string_views(old(seen)@).push(r@),
        final(seen)@.len() == old(seen)@.len() + 1,
{
    let ghost h = string_views(seen@);
    let len = seen.len();
    let mut n: usize = 1;
    let mut cand = label.clone();
    while n <= len && contains_label(seen, cand.as_str())
        invariant
            1 <= n <= len + 1,
            len == seen@.len(),
            len < u32::MAX,
            seen@ == old(seen)@,
            h == string_views(seen@),
            cand@ == numbered_label(label@, n as nat),
            free_slot_from(label@, h, n as nat, (len + 1 - n) as nat) == free_slot(label@, h),
        decreases len + 1 - n,
    {
        n = n + 1;
        cand = label.clone();
        push_str(&mut cand, " [#");
        push_decimal(&mut cand, n as u64);
        push_str(&mut cand, "]");
        assert(cand@ =~= label@ + counter_suffix(n as nat));
    }
    proof {
        lemma_handed_label_fresh(label@, h);
    }
    seen.push(cand.clone());
    assert(string_views(seen@) =~= h.push(cand@));
    cand
}

/// Make every label of `bases` unique (see [`unique_label`]).
pub fn uniquify_labels(bases: Vec<String>) -> (r: Vec<String>)
    requires
        bases@.len() < u32::MAX,
    ensures
        string_views(r@) == unique_labels(string_views(bases@)),
        r@.len() == bases@.len(),
        forall|i: int, j: int| 0 <= i < j < r@.len() ==> r@[i]@ != r@[j]@,
{
    let mut seen: Vec<String> = Vec::new();
    let mut i: usize = 0;
    while i < bases.len()
        invariant
            i <= bases@.len(),
            bases@.len() < u32::MAX,
            seen@.len() == i,
            string_views(seen@) == unique_labels(string_views(bases@).take(i as int)),
        decreases bases.len() - i,
    {
        unique_label(&mut seen, bases[i].clone());
        proof {
            let t = string_views(bases@).take(i + 1);
            assert(t.drop_last() =~= string_views(bases@).take(i as int));
            assert(t.last() == bases@[i as int]@);
        }
        i = i + 1;
    }
    proof {
        assert(string_views(bases@).take(bases@.len() as int) =~= string_views(bases@));
        lemma_unique_labels_distinct(string_views(bases@));
        assert forall|i: int, j: int| 0 <= i < j < seen@.len() implies seen@[i]@ != seen@[j]@ by {
            assert(string_views(seen@)[i] == seen@[i]@);
            assert(string_views(seen@)[j] == seen@[j]@);
        }
    }
    seen
}

} // verus!
verus! {

/// One selectable entry of `workspace open`.
#[derive(Debug, PartialEq, Eq)]
pub enum SessionChoice {
    /// Start a fresh Pi session in this workspace root.
    New { root: String },
    /// Resume this Pi session file in its workspace root.
    Resume { root: String, file: String },
    /// Informational row for an unavailable workspace or session: selecting
    /// it only shows the reason and reopens the selector.
    Unavailable { name: String, reason: String },
}

/// The characters of a [`SessionChoice`].
pub enum ChoiceView {
    New { root: Seq<char> },
    Resume { root: Seq<char>, file: Seq<char> },
    Unavailable { name: Seq<char>, reason: Seq<char> },
}

impl View for SessionChoice {
    type V = ChoiceView;

    open spec fn view(&self) -> ChoiceView {
        match self {
            SessionChoice::New { root } => ChoiceView::New { root: root@ },
            SessionChoice::Resume { root, file } => ChoiceView::Resume { root: root@, file: file@ },
            SessionChoice::Unavailable { name, reason } => ChoiceView::Unavailable {
                name: name@,
                reason: reason@,
            },
        }
    }
}

/// Views of a sequence of choices.
pub open spec fn choice_views(s: Seq<SessionChoice>) -> Seq<ChoiceView> {
    s.map_values(|x: SessionChoice| x@)
}

/// Separator between a workspace name and the rest of a selector label.
pub open spec fn label_sep() -> Seq<char> {
    " \u{2500}\u{2500} "@
}

/// `title (N msgs, modified)` for a session.
pub open spec fn session_entry_text(s: SessionSummary) -> Seq<char> {
    spec_display_title(s.title@, 80) + " ("@ + decimal(s.message_count as nat) + " msgs, "@
        + s.modified@ + ")"@
}

/// Why a workspace is unavailable, as shown in the selector.
pub open spec fn workspace_reason(w: WorkspaceSummary) -> Seq<char> {
    match opt_view(w.unavailable_reason) {
        Some(r) => r,
        None => "unavailable"@,
    }
}

/// Selector entries (label before de-duplication, choice) of one workspace:
/// an available workspace lists its sessions and then `✚ new session`; an
/// unavailable one lists its sessions as informational rows, or itself when
/// it has none.
pub open spec fn workspace_entries(w: WorkspaceSummary) -> Seq<(Seq<char>, ChoiceView)> {
    let ss = w.sessions@;
    if w.available {
        Seq::new(
            ss.len(),
            |i: int|
                (
                    w.name@ + label_sep() + session_entry_text(ss[i]),
                    ChoiceView::Resume { root: w.root@, file: ss[i].file@ },
                ),
        ).push(
            (
                w.name@ + label_sep() + "\u{271a} new session"@,
                ChoiceView::New { root: w.root@ },
            ),
        )
    } else if ss.len() == 0 {
        seq![
            (
                w.name@ + label_sep() + "\u{d7} "@ + workspace_reason(w),
                ChoiceView::Unavailable { name: w.name@, reason: workspace_reason(w) },
            ),
        ]
    } else {
        Seq::new(
            ss.len(),
            |i: int|
                (
                    w.name@ + label_sep() + "\u{d7} "@ + session_entry_text(ss[i]) + " ["@
                        + workspace_reason(w) + "]"@,
                    ChoiceView::Unavailable { name: w.name@, reason: workspace_reason(w) },
                ),
        )
    }
}

/// Selector entries of all workspaces, in order.
pub open spec fn all_entries(ws: Seq<WorkspaceSummary>) -> Seq<(Seq<char>, ChoiceView)>
    decreases ws.len(),
{
    if ws.len() == 0 {
        Seq::empty()
    } else {
        all_entries(ws.drop_last()) + workspace_entries(ws.last())
    }
}

/// Whether the selector entry launches Pi, in the root it names.
pub open spec fn launches_in(c: ChoiceView, root: Seq<char>) -> bool {
    match c {
        ChoiceView::New { root: r } => r == root,
        ChoiceView::Resume { root: r, .. } => r == root,
        ChoiceView::Unavailable { .. } => false,
    }
}

/// Whether the selector entry launches Pi at all.
pub open spec fn launches(c: ChoiceView) -> bool {
    !(c is Unavailable)
}

/// No selector entry launches Pi in a workspace whose root is missing:
/// every entry that launches Pi does so in the root of an available
/// workspace.
pub proof fn lemma_launch_only_available(ws: Seq<WorkspaceSummary>)
    ensures
        forall|i: int|
            0 <= i < all_entries(ws).len() && launches(#[trigger] all_entries(ws)[i].1)
                ==> exists|k: int|
                0 <= k < ws.len() && ws[k].available && launches_in(
                    all_entries(ws)[i].1,
                    #[trigger] ws[k].root@,
                ),
    decreases ws.len(),
{
    if ws.len() > 0 {
        let init = ws.drop_last();
        let w = ws.last();
        lemma_launch_only_available(init);
        let a = all_entries(init);
        let e = workspace_entries(w);
        let all = all_entries(ws);
        assert(all == a + e);
        assert forall|i: int|
            0 <= i < all.len() && launches(#[trigger] all[i].1) implies exists|k: int|
            0 <= k < ws.len() && ws[k].available && launches_in(all[i].1, #[trigger] ws[k].root@) by {
            if i < a.len() {
                assert(all[i] == a[i]);
                let k = choose|k: int|
                    0 <= k < init.len() && init[k].available && launches_in(
                        a[i].1,
                        #[trigger] init[k].root@,
                    );
                assert(init[k] == ws[k]);
            } else {
                let j = i - a.len();
                assert(all[i] == e[j]);
                let k = ws.len() - 1;
                assert(ws[k] == w);
                if w.available {
                    if j < w.sessions@.len() {
                        assert(e[j].1 == ChoiceView::Resume { root: w.root@, file: w.sessions@[j].file@ });
                    } else {
                        assert(e[j].1 == ChoiceView::New { root: w.root@ });
                    }
                    assert(launches_in(all[i].1, ws[k].root@));
                } else if w.sessions@.len() == 0 {
                    assert(e[j].1 is Unavailable);
                } else {
                    assert(e[j].1 is Unavailable);
                }
            }
        }
    }
}

/// Number of `workspace list` lines of the workspaces: a heading per
/// workspace and a line per session.
pub open spec fn line_count(ws: Seq<WorkspaceSummary>) -> nat
    decreases ws.len(),
{
    if ws.len() == 0 {
        0
    } else {
        line_count(ws.drop_last()) + 1 + ws.last().sessions@.len()
    }
}

proof fn lemma_line_count_step(ws: Seq<WorkspaceSummary>, a: int)
    requires
        0 <= a < ws.len(),
    ensures
        line_count(ws.take(a + 1)) == line_count(ws.take(a)) + 1 + ws[a].sessions@.len(),
{
    assert(ws.take(a + 1).drop_last() =~= ws.take(a));
}

proof fn lemma_line_count_mono(ws: Seq<WorkspaceSummary>, a: int, b: int)
    requires
        0 <= a <= b <= ws.len(),
    ensures
        line_count(ws.take(a)) <= line_count(ws.take(b)),
    decreases b - a,
{
    if a < b {
        lemma_line_count_step(ws, b - 1);
        lemma_line_count_mono(ws, a, b - 1);
    }
}

proof fn lemma_catalog_lines_len(ws: Seq<WorkspaceSummary>)
    ensures
        catalog_lines(ws).len() == line_count(ws),
    decreases ws.len(),
{
    if ws.len() > 0 {
        lemma_catalog_lines_len(ws.drop_last());
    }
}

proof fn lemma_catalog_lines_at(ws: Seq<WorkspaceSummary>, k: int)
    requires
        0 <= k < ws.len(),
    ensures
        catalog_lines(ws)[line_count(ws.take(k)) as int] == workspace_heading(ws[k]),
        forall|i: int|
            0 <= i < ws[k].sessions@.len() ==> catalog_lines(ws)[line_count(ws.take(k)) + 1 + i]
                == session_line(#[trigger] ws[k].sessions@[i]),
    decreases ws.len(),
{
    let n = ws.len() - 1;
    let init = ws.drop_last();
    let w = ws.last();
    let c = catalog_lines(ws);
    let ci = catalog_lines(init);
    let wl = workspace_lines(w);
    assert(c == ci + wl);
    lemma_catalog_lines_len(init);
    if k < n {
        lemma_catalog_lines_at(init, k);
        assert(ws.take(k) =~= init.take(k));
        assert(init[k] == ws[k]);
        lemma_line_count_step(init, k);
        lemma_line_count_mono(init, k + 1, init.len() as int);
        assert(init.take(init.len() as int) =~= init);
        let base = line_count(ws.take(k));
        assert(c[base as int] == ci[base as int]);
        assert forall|i: int| 0 <= i < ws[k].sessions@.len() implies c[base + 1 + i] == session_line(
            #[trigger] ws[k].sessions@[i],
        ) by {
            assert(c[base + 1 + i] == ci[base + 1 + i]);
            assert(init[k].sessions@[i] == ws[k].sessions@[i]);
        }
    } else {
        assert(ws.take(k) =~= init);
        assert(wl[0] == workspace_heading(w));
        assert forall|i: int| 0 <= i < ws[k].sessions@.len() implies c[line_count(ws.take(k)) + 1
            + i] == session_line(#[trigger] ws[k].sessions@[i]) by {
            assert(wl[1 + i] == session_line(w.sessions@[i]));
        }
    }
}

/// `workspace list` prints, for every workspace in order, its heading and
/// then one line per session, available or not: workspace `k`'s heading
/// stands after the lines of the workspaces before it, followed by its
/// sessions' lines, and there are no other lines.
pub proof fn lemma_catalog_lines_layout(ws: Seq<WorkspaceSummary>)
    ensures
        catalog_lines(ws).len() == line_count(ws),
        forall|k: int|
            0 <= k < ws.len() ==> catalog_lines(ws)[line_count(ws.take(k)) as int]
                == workspace_heading(#[trigger] ws[k]),
        forall|k: int, i: int|
            0 <= k < ws.len() && 0 <= i < ws[k].sessions@.len() ==> catalog_lines(ws)[line_count(
                ws.take(k),
            ) + 1 + i] == session_line(#[trigger] ws[k].sessions@[i]),
{
    lemma_catalog_lines_len(ws);
    assert forall|k: int| 0 <= k < ws.len() implies catalog_lines(ws)[line_count(ws.take(k)) as int]
        == workspace_heading(#[trigger] ws[k]) by {
        lemma_catalog_lines_at(ws, k);
    }
    assert forall|k: int, i: int|
        0 <= k < ws.len() && 0 <= i < ws[k].sessions@.len() implies catalog_lines(ws)[line_count(
        ws.take(k),
    ) + 1 + i] == session_line(#[trigger] ws[k].sessions@[i]) by {
        lemma_catalog_lines_at(ws, k);
    }
}

/// Number of selector entries of a workspace: an available one lists its
/// sessions and a new-session entry; an unavailable one lists its sessions,
/// or itself when it has none.
pub open spec fn entry_count(w: WorkspaceSummary) -> nat {
    if w.available {
        w.sessions@.len() + 1
    } else if w.sessions@.len() == 0 {
        1
    } else {
        w.sessions@.len()
    }
}

/// Number of selector entries of the workspaces.
pub open spec fn total_entries(ws: Seq<WorkspaceSummary>) -> nat
    decreases ws.len(),
{
    if ws.len() == 0 {
        0
    } else {
        total_entries(ws.drop_last()) + entry_count(ws.last())
    }
}

proof fn lemma_total_entries_step(ws: Seq<WorkspaceSummary>, a: int)
    requires
        0 <= a < ws.len(),
    ensures
        total_entries(ws.take(a + 1)) == total_entries(ws.take(a)) + entry_count(ws[a]),
{
    assert(ws.take(a + 1).drop_last() =~= ws.take(a));
}

proof fn lemma_total_entries_mono(ws: Seq<WorkspaceSummary>, a: int, b: int)
    requires
        0 <= a <= b <= ws.len(),
    ensures
        total_entries(ws.take(a)) <= total_entries(ws.take(b)),
    decreases b - a,
{
    if a < b {
        lemma_total_entries_step(ws, b - 1);
        lemma_total_entries_mono(ws, a, b - 1);
    }
}

proof fn lemma_all_entries_len(ws: Seq<WorkspaceSummary>)
    ensures
        all_entries(ws).len() == total_entries(ws),
    decreases ws.len(),
{
    if ws.len() > 0 {
        lemma_all_entries_len(ws.drop_last());
        assert(workspace_entries(ws.last()).len() == entry_count(ws.last()));
    }
}

proof fn lemma_entries_bound(ws: Seq<WorkspaceSummary>, k: int)
    requires
        0 <= k < ws.len(),
    ensures
        total_entries(ws.take(k)) + entry_count(ws[k]) <= total_entries(ws),
{
    lemma_total_entries_step(ws, k);
    lemma_total_entries_mono(ws, k + 1, ws.len() as int);
    assert(ws.take(ws.len() as int) =~= ws);
}

proof fn lemma_lines_bound(ws: Seq<WorkspaceSummary>, k: int)
    requires
        0 <= k < ws.len(),
    ensures
        line_count(ws.take(k)) + 1 + ws[k].sessions@.len() <= line_count(ws),
{
    lemma_line_count_step(ws, k);
    lemma_line_count_mono(ws, k + 1, ws.len() as int);
    assert(ws.take(ws.len() as int) =~= ws);
}

proof fn lemma_choices_at(ws: Seq<WorkspaceSummary>, k: int)
    requires
        0 <= k < ws.len(),
    ensures
        ws[k].available ==> forall|i: int|
            0 <= i < ws[k].sessions@.len() ==> all_entries(ws)[total_entries(ws.take(k)) + i] == (
                ws[k].name@ + label_sep() + session_entry_text(#[trigger] ws[k].sessions@[i]),
                (ChoiceView::Resume { root: ws[k].root@, file: ws[k].sessions@[i].file@ }),
            ),
        ws[k].available ==> all_entries(ws)[total_entries(ws.take(k)) + ws[k].sessions@.len() as int].1
            == (ChoiceView::New { root: ws[k].root@ }),
        !ws[k].available ==> forall|j: int|
            total_entries(ws.take(k)) <= j < total_entries(ws.take(k)) + entry_count(ws[k]) ==> (
            #[trigger] all_entries(ws)[j].1 is Unavailable),
    decreases ws.len(),
{
    let n = ws.len() - 1;
    let init = ws.drop_last();
    let w = ws.last();
    let c = all_entries(ws);
    let ci = all_entries(init);
    let we = workspace_entries(w);
    assert(c == ci + we);
    lemma_all_entries_len(init);
    assert(we.len() == entry_count(w));
    if k < n {
        lemma_choices_at(init, k);
        assert(ws.take(k) =~= init.take(k));
        assert(init[k] == ws[k]);
        lemma_entries_bound(init, k);
        let base = total_entries(ws.take(k));
        if ws[k].available {
            assert forall|i: int| 0 <= i < ws[k].sessions@.len() implies c[base + i] == (
                ws[k].name@ + label_sep() + session_entry_text(#[trigger] ws[k].sessions@[i]),
                (ChoiceView::Resume { root: ws[k].root@, file: ws[k].sessions@[i].file@ }),
            ) by {
                assert(c[base + i] == ci[base + i]);
                assert(init[k].sessions@[i] == ws[k].sessions@[i]);
            }
            assert(c[base + ws[k].sessions@.len() as int] == ci[base + ws[k].sessions@.len() as int]);
        } else {
            assert forall|j: int| base <= j < base + entry_count(ws[k]) implies (#[trigger] c[j].1 is Unavailable) by {
                assert(c[j] == ci[j]);
            }
        }
    } else {
        assert(ws.take(k) =~= init);
        let base = total_entries(ws.take(k));
        if w.available {
            assert forall|i: int| 0 <= i < ws[k].sessions@.len() implies c[base + i] == (
                ws[k].name@ + label_sep() + session_entry_text(#[trigger] ws[k].sessions@[i]),
                (ChoiceView::Resume { root: ws[k].root@, file: ws[k].sessions@[i].file@ }),
            ) by {
                assert(c[base + i] == we[i]);
            }
            assert(c[base + w.sessions@.len() as int] == we[w.sessions@.len() as int]);
        } else {
            assert forall|j: int| base <= j < base + entry_count(ws[k]) implies (#[trigger] c[j].1 is Unavailable) by {
                assert(c[j] == we[j - base]);
            }
        }
    }
}

/// Every session of an available workspace gets its own selector entry,
/// labelled with that session and resuming that session's file in the
/// workspace root, followed by one entry that starts a new session there;
/// an unavailable workspace's entries launch nothing.
pub proof fn lemma_choices_layout(ws: Seq<WorkspaceSummary>)
    ensures
        all_entries(ws).len() == total_entries(ws),
        forall|k: int, i: int|
            0 <= k < ws.len() && ws[k].available && 0 <= i < ws[k].sessions@.len() ==> all_entries(
                ws,
            )[total_entries(ws.take(k)) + i] == (
                ws[k].name@ + label_sep() + session_entry_text(#[trigger] ws[k].sessions@[i]),
                (ChoiceView::Resume { root: ws[k].root@, file: ws[k].sessions@[i].file@ }),
            ),
        forall|k: int|
            0 <= k < ws.len() && (#[trigger] ws[k]).available ==> all_entries(ws)[total_entries(
                ws.take(k),
            ) + ws[k].sessions@.len() as int].1 == (ChoiceView::New { root: ws[k].root@ }),
        forall|k: int, j: int|
            #![trigger ws[k], all_entries(ws)[j]]
            0 <= k < ws.len() && !ws[k].available && total_entries(ws.take(k)) <= j
                < total_entries(ws.take(k)) + entry_count(ws[k]) ==> (all_entries(ws)[j].1 is Unavailable),
{
    lemma_all_entries_len(ws);
    assert forall|k: int, i: int|
        0 <= k < ws.len() && ws[k].available && 0 <= i < ws[k].sessions@.len() implies all_entries(
        ws,
    )[total_entries(ws.take(k)) + i] == (
        ws[k].name@ + label_sep() + session_entry_text(#[trigger] ws[k].sessions@[i]),
        (ChoiceView::Resume { root: ws[k].root@, file: ws[k].sessions@[i].file@ }),
    ) by {
        lemma_choices_at(ws, k);
    }
    assert forall|k: int| 0 <= k < ws.len() && (#[trigger] ws[k]).available implies all_entries(
        ws,
    )[total_entries(ws.take(k)) + ws[k].sessions@.len() as int].1 == (ChoiceView::New {
        root: ws[k].root@,
    }) by {
        lemma_choices_at(ws, k);
    }
    assert forall|k: int, j: int|
        #![trigger ws[k], all_entries(ws)[j]]
        0 <= k < ws.len() && !ws[k].available && total_entries(ws.take(k)) <= j < total_entries(
            ws.take(k),
        ) + entry_count(ws[k]) implies (all_entries(ws)[j].1 is Unavailable) by {
        lemma_choices_at(ws, k);
    }
}

fn session_entry(s: &SessionSummary) -> (r: String)
    ensures
        r@ == session_entry_text(*s),
{
    let mut out = display_title(s.title.as_str(), 80);
    push_str(&mut out, " (");
    push_decimal(&mut out, s.message_count as u64);
    push_str(&mut out, " msgs, ");
    push_str(&mut out, s.modified.as_str());
    push_str(&mut out, ")");
    out
}

fn labelled(name: &String, rest: &str) -> (r: String)
    ensures
        r@ == name@ + label_sep() + rest@,
{
    let mut out = name.clone();
    push_str(&mut out, " \u{2500}\u{2500} ");
    push_str(&mut out, rest);
    out
}

fn reason_of(w: &WorkspaceSummary) -> (r: String)
    ensures
        r@ == workspace_reason(*w),
{
    match &w.unavailable_reason {
        Some(r) => r.clone(),
        None => String::from_str("unavailable"),
    }
}

/// Appends the selector entries of one workspace.
fn push_workspace_entries(w: &WorkspaceSummary, bases: &mut Vec<String>, choices: &mut Vec<
    SessionChoice,
>)
    ensures
        string_views(final(bases)@) == string_views(old(bases)@) + workspace_entries(
            *w,
        ).map_values(|e: (Seq<char>, ChoiceView)| e.0),
        choice_views(final(choices)@) == choice_views(old(choices)@) + workspace_entries(
            *w,
        ).map_values(|e: (Seq<char>, ChoiceView)| e.1),
{
    let ghost entries = workspace_entries(*w);
    let ghost b0 = string_views(bases@);
    let ghost c0 = choice_views(choices@);
    let n = w.sessions.len();
    if !w.available && n == 0 {
        let reason = reason_of(w);
        let mut rest = String::from_str("\u{d7} ");
        push_str(&mut rest, reason.as_str());
        let label = labelled(&w.name, rest.as_str());
        assert(label@ =~= entries[0].0);
        bases.push(label);
        choices.push(SessionChoice::Unavailable { name: w.name.clone(), reason });
        proof {
            assert(string_views(bases@) =~= b0 + entries.map_values(
                |e: (Seq<char>, ChoiceView)| e.0,
            ));
            assert(choice_views(choices@) =~= c0 + entries.map_values(
                |e: (Seq<char>, ChoiceView)| e.1,
            ));
        }
        return;
    }
    let reason = reason_of(w);
    let mut j: usize = 0;
    while j < n
        invariant
            j <= n,
            n == w.sessions@.len(),
            !w.available ==> n > 0,
            entries == workspace_entries(*w),
            reason@ == workspace_reason(*w),
            string_views(bases@) == b0 + entries.take(j as int).map_values(
                |e: (Seq<char>, ChoiceView)| e.0,
            ),
            choice_views(choices@) == c0 + entries.take(j as int).map_values(
                |e: (Seq<char>, ChoiceView)| e.1,
            ),
        decreases n - j,
    {
        let s = &w.sessions[j];
        let text = session_entry(s);
        let ghost bb = string_views(bases@);
        let ghost cc = choice_views(choices@);
        if w.available {
            let label = labelled(&w.name, text.as_str());
            assert(label@ =~= entries[j as int].0);
            bases.push(label);
            choices.push(SessionChoice::Resume { root: w.root.clone(), file: s.file.clone() });
        } else {
            let mut rest = String::from_str("\u{d7} ");
            push_str(&mut rest, text.as_str());
            push_str(&mut rest, " [");
            push_str(&mut rest, reason.as_str());
            push_str(&mut rest, "]");
            let label = labelled(&w.name, rest.as_str());
            assert(label@ =~= entries[j as int].0);
            bases.push(label);
            choices.push(SessionChoice::Unavailable { name: w.name.clone(), reason: reason.clone() });
        }
        proof {
            assert(entries.take(j + 1) =~= entries.take(j as int).push(entries[j as int]));
            assert(string_views(bases@) =~= bb.push(entries[j as int].0));
            assert(choice_views(choices@) =~= cc.push(entries[j as int].1));
            assert(string_views(bases@) =~= b0 + entries.take(j + 1).map_values(
                |e: (Seq<char>, ChoiceView)| e.0,
            ));
            assert(choice_views(choices@) =~= c0 + entries.take(j + 1).map_values(
                |e: (Seq<char>, ChoiceView)| e.1,
            ));
        }
        j = j + 1;
    }
    if w.available {
        let ghost bb = string_views(bases@);
        let ghost cc = choice_views(choices@);
        bases.push(labelled(&w.name, "\u{271a} new session"));
        choices.push(SessionChoice::New { root: w.root.clone() });
        proof {
            assert(entries.take(n + 1) =~= entries);
            assert(entries.take(n + 1) =~= entries.take(n as int).push(entries[n as int]));
            assert(string_views(bases@) =~= bb.push(entries[n as int].0));
            assert(choice_views(choices@) =~= cc.push(entries[n as int].1));
            assert(string_views(bases@) =~= b0 + entries.map_values(
                |e: (Seq<char>, ChoiceView)| e.0,
            ));
            assert(choice_views(choices@) =~= c0 + entries.map_values(
                |e: (Seq<char>, ChoiceView)| e.1,
            ));
        }
    } else {
        assert(entries.take(n as int) =~= entries);
    }
}

proof fn lemma_choices_result(choices: Seq<SessionChoice>, ws: Seq<WorkspaceSummary>)
    requires
        choice_views(choices) == all_entries(ws).map_values(|e: (Seq<char>, ChoiceView)| e.1),
    ensures
        choices.len() == total_entries(ws),
        forall|k: int, i: int|
            0 <= k < ws.len() && ws[k].available && 0 <= i < ws[k].sessions@.len() ==> choices[total_entries(
                ws.take(k),
            ) + i]@ == (ChoiceView::Resume {
                root: ws[k].root@,
                file: (#[trigger] ws[k].sessions@[i]).file@,
            }),
        forall|k: int|
            0 <= k < ws.len() && (#[trigger] ws[k]).available ==> choices[total_entries(ws.take(k))
                + ws[k].sessions@.len() as int]@ == (ChoiceView::New { root: ws[k].root@ }),
{
    let e = all_entries(ws);
    let m = e.map_values(|x: (Seq<char>, ChoiceView)| x.1);
    lemma_all_entries_len(ws);
    assert(choice_views(choices).len() == choices.len());
    assert(m.len() == e.len());
    assert forall|k: int, i: int|
        0 <= k < ws.len() && ws[k].available && 0 <= i < ws[k].sessions@.len() implies choices[total_entries(
        ws.take(k),
    ) + i]@ == (ChoiceView::Resume {
        root: ws[k].root@,
        file: (#[trigger] ws[k].sessions@[i]).file@,
    }) by {
        lemma_choices_at(ws, k);
        lemma_entries_bound(ws, k);
        let j = total_entries(ws.take(k)) + i;
        assert(choice_views(choices)[j] == choices[j]@);
        assert(m[j] == e[j].1);
    }
    assert forall|k: int|
        0 <= k < ws.len() && (#[trigger] ws[k]).available implies choices[total_entries(ws.take(k))
        + ws[k].sessions@.len() as int]@ == (ChoiceView::New { root: ws[k].root@ }) by {
        lemma_choices_at(ws, k);
        lemma_entries_bound(ws, k);
        let j = total_entries(ws.take(k)) + ws[k].sessions@.len() as int;
        assert(choice_views(choices)[j] == choices[j]@);
        assert(m[j] == e[j].1);
    }
}

/// Build the flat selector labels and their choices for `workspace open`.
///
/// Labels are the entries of [`all_entries`] made unique with
/// [`unique_label`], so no two labels are equal; when no unavailable
/// workspace's reason ends in a digit or `]`, a repeated label is numbered
/// by its occurrence. Choices follow the same order.
pub fn build_session_choices(catalog: &WorkspaceCatalog) -> (r: (Vec<String>, Vec<SessionChoice>))
    requires
        all_entries(catalog.workspaces@).len() < u32::MAX,
    ensures
        string_views(r.0@) == unique_labels(
            all_entries(catalog.workspaces@).map_values(|e: (Seq<char>, ChoiceView)| e.0),
        ),
        forall|i: int, j: int| 0 <= i < j < r.0@.len() ==> r.0@[i]@ != r.0@[j]@,
        (forall|k: int|
            0 <= k < catalog.workspaces@.len() && !(#[trigger] catalog.workspaces@[k]).available
                ==> reason_ends_plainly(workspace_reason(catalog.workspaces@[k])))
            ==> string_views(r.0@) == numbered_labels(
            all_entries(catalog.workspaces@).map_values(|e: (Seq<char>, ChoiceView)| e.0),
        ),
        choice_views(r.1@) == all_entries(catalog.workspaces@).map_values(
            |e: (Seq<char>, ChoiceView)| e.1,
        ),
        r.0@.len() == r.1@.len(),
        r.1@.len() == total_entries(catalog.workspaces@),
        forall|k: int, i: int|
            0 <= k < catalog.workspaces@.len() && catalog.workspaces@[k].available && 0 <= i
                < catalog.workspaces@[k].sessions@.len() ==> r.1@[total_entries(
                catalog.workspaces@.take(k),
            ) + i]@ == (ChoiceView::Resume {
                root: catalog.workspaces@[k].root@,
                file: (#[trigger] catalog.workspaces@[k].sessions@[i]).file@,
            }),
        forall|k: int|
            0 <= k < catalog.workspaces@.len() && (#[trigger] catalog.workspaces@[k]).available
                ==> r.1@[total_entries(catalog.workspaces@.take(k)) + catalog.workspaces@[k].sessions@.len() as int]@
                == (ChoiceView::New { root: catalog.workspaces@[k].root@ }),
{
    let ws = &catalog.workspaces;
    let mut bases: Vec<String> = Vec::new();
    let mut choices: Vec<SessionChoice> = Vec::new();
    let mut k: usize = 0;
    while k < ws.len()
        invariant
            k <= ws@.len(),
            ws@ == catalog.workspaces@,
            string_views(bases@) == all_entries(ws@.take(k as int)).map_values(
                |e: (Seq<char>, ChoiceView)| e.0,
            ),
            choice_views(choices@) == all_entries(ws@.take(k as int)).map_values(
                |e: (Seq<char>, ChoiceView)| e.1,
            ),
        decreases ws.len() - k,
    {
        push_workspace_entries(&ws[k], &mut bases, &mut choices);
        proof {
            let t = ws@.take(k + 1);
            assert(t.drop_last() =~= ws@.take(k as int));
            assert(t.last() == ws@[k as int]);
            assert(string_views(bases@) =~= all_entries(t).map_values(
                |e: (Seq<char>, ChoiceView)| e.0,
            ));
            assert(choice_views(choices@) =~= all_entries(t).map_values(
                |e: (Seq<char>, ChoiceView)| e.1,
            ));
        }
        k = k + 1;
    }
    assert(ws@.take(ws@.len() as int) =~= ws@);
    assert(bases@.len() == string_views(bases@).len());
    let labels = uniquify_labels(bases);
    assert(labels@.len() == string_views(labels@).len());
    proof {
        if forall|k: int|
            0 <= k < ws@.len() && !(#[trigger] ws@[k]).available ==> reason_ends_plainly(
                workspace_reason(ws@[k]),
            ) {
            lemma_selector_labels_numbered(ws@);
        }
        lemma_choices_result(choices@, ws@);
    }
    (labels, choices)
}

} // verus!
verus! {

/// Heading line of a workspace in `workspace list`.
pub open spec fn workspace_heading(w: WorkspaceSummary) -> Seq<char> {
    match opt_view(w.unavailable_reason) {
        Some(r) => w.name@ + "\t"@ + w.root@ + "\t(unavailable: "@ + r + ")"@,
        None => w.name@ + "\t"@ + w.root@ + "\t"@ + decimal(w.sessions@.len()) + " session(s)"@,
    }
}

/// Line of a session in `workspace list`.
pub open spec fn session_line(s: SessionSummary) -> Seq<char> {
    "  "@ + spec_display_title(s.title@, 80) + "\t"@ + decimal(s.message_count as nat) + " msgs\t"@
        + s.modified@
}

/// Lines of one workspace: its heading, then one line per session.
pub open spec fn workspace_lines(w: WorkspaceSummary) -> Seq<Seq<char>> {
    seq![workspace_heading(w)] + Seq::new(w.sessions@.len(), |i: int| session_line(w.sessions@[i]))
}

/// Lines of all workspaces, in order.
pub open spec fn catalog_lines(ws: Seq<WorkspaceSummary>) -> Seq<Seq<char>>
    decreases ws.len(),
{
    if ws.len() == 0 {
        Seq::empty()
    } else {
        catalog_lines(ws.drop_last()) + workspace_lines(ws.last())
    }
}

fn heading_of(w: &WorkspaceSummary) -> (r: String)
    ensures
        r@ == workspace_heading(*w),
{
    let mut out = w.name.clone();
    push_str(&mut out, "\t");
    push_str(&mut out, w.root.as_str());
    match &w.unavailable_reason {
        Some(reason) => {
            push_str(&mut out, "\t(unavailable: ");
            push_str(&mut out, reason.as_str());
            push_str(&mut out, ")");
        },
        None => {
            push_str(&mut out, "\t");
            push_decimal(&mut out, w.sessions.len() as u64);
            push_str(&mut out, " session(s)");
        },
    }
    out
}

fn session_line_of(s: &SessionSummary) -> (r: String)
    ensures
        r@ == session_line(*s),
{
    let mut out = String::from_str("  ");
    let title = display_title(s.title.as_str(), 80);
    push_str(&mut out, title.as_str());
    push_str(&mut out, "\t");
    push_decimal(&mut out, s.message_count as u64);
    push_str(&mut out, " msgs\t");
    push_str(&mut out, s.modified.as_str());
    out
}

/// The human-readable listing of `workspace list`: per workspace a heading
/// (`name`, `root`, and the session count or why it is unavailable), then
/// its sessions indented.
pub fn catalog_human_lines(catalog: &WorkspaceCatalog) -> (r: Vec<String>)
    ensures
        string_views(r@) == catalog_lines(catalog.workspaces@),
        r@.len() == line_count(catalog.workspaces@),
        forall|k: int|
            0 <= k < catalog.workspaces@.len() ==> r@[line_count(catalog.workspaces@.take(k)) as int]@
                == workspace_heading(#[trigger] catalog.workspaces@[k]),
        forall|k: int, i: int|
            0 <= k < catalog.workspaces@.len() && 0 <= i < catalog.workspaces@[k].sessions@.len()
                ==> r@[line_count(catalog.workspaces@.take(k)) + 1 + i]@ == session_line(
                #[trigger] catalog.workspaces@[k].sessions@[i],
            ),
{
    let ws = &catalog.workspaces;
    let mut out: Vec<String> = Vec::new();
    let mut k: usize = 0;
    while k < ws.len()
        invariant
            k <= ws@.len(),
            ws@ == catalog.workspaces@,
            string_views(out@) == catalog_lines(ws@.take(k as int)),
        decreases ws.len() - k,
    {
        let w = &ws[k];
        let ghost start = string_views(out@);
        out.push(heading_of(w));
        let mut j: usize = 0;
        while j < w.sessions.len()
            invariant
                j <= w.sessions@.len(),
                string_views(out@) == start + workspace_lines(*w).take(j + 1),
            decreases w.sessions.len() - j,
        {
            let ghost before = string_views(out@);
            out.push(session_line_of(&w.sessions[j]));
            proof {
                assert(workspace_lines(*w).take(j + 2) =~= workspace_lines(*w).take(j + 1).push(
                    session_line(w.sessions@[j as int]),
                ));
                assert(string_views(out@) =~= before.push(session_line(w.sessions@[j as int])));
            }
            j = j + 1;
        }
        proof {
            assert(workspace_lines(*w).take(w.sessions@.len() + 1int) =~= workspace_lines(*w));
            let t = ws@.take(k + 1);
            assert(t.drop_last() =~= ws@.take(k as int));
            assert(t.last() == ws@[k as int]);
        }
        k = k + 1;
    }
    assert(ws@.take(ws@.len() as int) =~= ws@);
    proof {
        lemma_lines_result(out@, ws@);
    }
    out
}

proof fn lemma_lines_result(out: Seq<String>, ws: Seq<WorkspaceSummary>)
    requires
        string_views(out) == catalog_lines(ws),
    ensures
        out.len() == line_count(ws),
        forall|k: int|
            0 <= k < ws.len() ==> out[line_count(ws.take(k)) as int]@ == workspace_heading(
                #[trigger] ws[k],
            ),
        forall|k: int, i: int|
            0 <= k < ws.len() && 0 <= i < ws[k].sessions@.len() ==> out[line_count(ws.take(k)) + 1
                + i]@ == session_line(#[trigger] ws[k].sessions@[i]),
{
    lemma_catalog_lines_len(ws);
    assert(string_views(out).len() == out.len());
    assert forall|k: int| 0 <= k < ws.len() implies out[line_count(ws.take(k)) as int]@ == workspace_heading(
        #[trigger] ws[k],
    ) by {
        lemma_catalog_lines_at(ws, k);
        lemma_lines_bound(ws, k);
        let j = line_count(ws.take(k)) as int;
        assert(string_views(out)[j] == out[j]@);
    }
    assert forall|k: int, i: int|
        0 <= k < ws.len() && 0 <= i < ws[k].sessions@.len() implies out[line_count(ws.take(k)) + 1
        + i]@ == session_line(#[trigger] ws[k].sessions@[i]) by {
        lemma_catalog_lines_at(ws, k);
        lemma_lines_bound(ws, k);
        let j = line_count(ws.take(k)) + 1 + i;
        assert(string_views(out)[j] == out[j]@);
    }
}

/// What `workspace open` does after the selector returns.
#[derive(Debug, PartialEq, Eq)]
pub enum OpenStep {
    /// The selector was cancelled: leave successfully.
    Cancel,
    /// An informational row was picked: show the notice and select again.
    Retry { notice: String },
    /// Launch `pi` with these arguments in this directory.
    Launch { root: String, args: Vec<String> },
}

/// Decide what to do with the selector's answer (`None` when cancelled).
pub fn open_selection(choices: &Vec<SessionChoice>, selection: Option<usize>) -> (r: OpenStep)
    requires
        selection matches Some(i) ==> i < choices@.len(),
    ensures
        match selection {
            None => r is Cancel,
            Some(i) => match choices@[i as int]@ {
                ChoiceView::Unavailable { name, reason } => r matches OpenStep::Retry { notice }
                    && notice@ == "\u{d7} "@ + name + ": "@ + reason,
                ChoiceView::New { root } => r matches OpenStep::Launch { root: dir, args }
                    && dir@ == root && args@.len() == 0,
                ChoiceView::Resume { root, file } => r matches OpenStep::Launch { root: dir, args }
                    && dir@ == root && args@.len() == 2 && args@[0]@ == "--session"@ && args@[1]@
                    == file,
            },
        },
{
    let i = match selection {
        None => return OpenStep::Cancel,
        Some(i) => i,
    };
    match &choices[i] {
        SessionChoice::Unavailable { name, reason } => {
            let mut notice = String::from_str("\u{d7} ");
            push_str(&mut notice, name.as_str());
            push_str(&mut notice, ": ");
            push_str(&mut notice, reason.as_str());
            OpenStep::Retry { notice }
        },
        SessionChoice::New { root } => OpenStep::Launch { root: root.clone(), args: Vec::new() },
        SessionChoice::Resume { root, file } => {
            let mut args: Vec<String> = Vec::new();
            args.push(String::from_str("--session"));
            args.push(file.clone());
            OpenStep::Launch { root: root.clone(), args }
        },
    }
}

} // verus!
verus! {

/// Whether `s` starts with `p`.
pub open spec fn starts_with_seq(s: Seq<char>, p: Seq<char>) -> bool {
    s.len() >= p.len() && s.take(p.len() as int) == p
}

/// The task kind that a `--kind` value names: `code-review`, `build`,
/// `test`, or `custom:<command>`.
pub open spec fn spec_task_kind(kind: Seq<char>) -> Option<crate::protocol::TaskKind> {
    if kind == "code-review"@ {
        Some(crate::protocol::TaskKind::CodeReview)
    } else if kind == "build"@ {
        Some(crate::protocol::TaskKind::Build)
    } else if kind == "test"@ {
        Some(crate::protocol::TaskKind::Test)
    } else {
        None
    }
}

/// The `--kind` value that `task run --command <command>` stands for.
pub fn run_task_kind(command: &str) -> (r: String)
    ensures
        r@ == "custom:"@ + command@,
{
    let mut out = String::from_str("custom:");
    push_str(&mut out, command);
    out
}

/// Parse a `--kind` value.
pub fn parse_task_kind(kind: &str) -> (r: Option<crate::protocol::TaskKind>)
    ensures
        starts_with_seq(kind@, "custom:"@) ==> (r matches Some(
            crate::protocol::TaskKind::CustomCommand { command },
        ) && command@ == kind@.skip(7)),
        !starts_with_seq(kind@, "custom:"@) ==> r == spec_task_kind(kind@),
{
    proof {
        reveal_strlit("custom:");
        reveal_strlit("code-review");
        reveal_strlit("build");
        reveal_strlit("test");
    }
    let cs = chars_of(kind);
    let prefix = chars_of("custom:");
    let mut is_custom = cs.len() >= 7;
    let mut i: usize = 0;
    assert(prefix@.len() == 7);
    while is_custom && i < 7
        invariant
            i <= 7,
            prefix@ == "custom:"@,
            prefix@.len() == 7,
            cs@ == kind@,
            is_custom ==> cs@.len() >= 7,
            is_custom ==> forall|j: int| 0 <= j < i ==> cs@[j] == prefix@[j],
            !is_custom ==> !starts_with_seq(kind@, "custom:"@),
        decreases 7 - i,
    {
        if cs[i] != prefix[i] {
            is_custom = false;
            assert(kind@.take(7)[i as int] != "custom:"@[i as int]);
        }
        i = i + 1;
    }
    if is_custom {
        assert(kind@.take(7) =~= "custom:"@);
        let mut rest: Vec<char> = Vec::new();
        let mut j: usize = 7;
        while j < cs.len()
            invariant
                7 <= j <= cs@.len(),
                rest@ == cs@.subrange(7, j as int),
            decreases cs.len() - j,
        {
            rest.push(cs[j]);
            j = j + 1;
            assert(rest@ =~= cs@.subrange(7, j as int));
        }
        return Some(crate::protocol::TaskKind::CustomCommand { command: string_from_chars(rest.as_slice()) });
    }
    if str_eq(kind, "code-review") {
        Some(crate::protocol::TaskKind::CodeReview)
    } else if str_eq(kind, "build") {
        Some(crate::protocol::TaskKind::Build)
    } else if str_eq(kind, "test") {
        Some(crate::protocol::TaskKind::Test)
    } else {
        None
    }
}

/// The sandbox provider that a `--sandbox` value names.
pub open spec fn spec_provider(s: Seq<char>) -> Option<crate::protocol::SandboxProviderKind> {
    if s == "local"@ {
        Some(crate::protocol::SandboxProviderKind::Local)
    } else if s == "cube"@ {
        Some(crate::protocol::SandboxProviderKind::Cube)
    } else {
        None
    }
}

/// Parse a `--sandbox` value.
pub fn parse_provider(s: &str) -> (r: Option<crate::protocol::SandboxProviderKind>)
    ensures
        r == spec_provider(s@),
{
    if str_eq(s, "local") {
        Some(crate::protocol::SandboxProviderKind::Local)
    } else if str_eq(s, "cube") {
        Some(crate::protocol::SandboxProviderKind::Cube)
    } else {
        None
    }
}

/// The stderr line for an unknown task kind.
pub open spec fn invalid_kind_line(kind: Seq<char>) -> Seq<char> {
    "{\"ok\":false,\"error\":\"invalid_kind\",\"message\":\"Unknown task kind: "@ + kind + "\"}"@
}

/// The stderr line for an unknown sandbox provider.
pub open spec fn invalid_provider_line(p: Seq<char>) -> Seq<char> {
    "{\"ok\":false,\"error\":\"invalid_provider\",\"message\":\"Unknown provider: "@ + p + "\"}"@
}

/// The task creation request for `task create` / `task run`, or the
/// stderr line that rejects an unknown kind (checked first) or provider.
pub fn build_task_request(workspace: String, kind: &str, sandbox: &str) -> (r: Result<
    crate::protocol::CreateTaskRequest,
    String,
>)
    ensures
        match r {
            Ok(req) => {
                &&& req.workspace_path == workspace
                &&& req.sandbox.template is None
                &&& spec_provider(sandbox@) == Some(req.sandbox.provider)
                &&& starts_with_seq(kind@, "custom:"@) ==> (req.kind matches crate::protocol::TaskKind::CustomCommand {
                    command,
                } && command@ == kind@.skip(7))
                &&& !starts_with_seq(kind@, "custom:"@) ==> spec_task_kind(kind@) == Some(req.kind)
            },
            Err(line) => {
                ||| (!starts_with_seq(kind@, "custom:"@) && spec_task_kind(kind@) is None
                    && line@ == invalid_kind_line(kind@))
                ||| ((starts_with_seq(kind@, "custom:"@) || spec_task_kind(kind@) is Some)
                    && spec_provider(sandbox@) is None && line@ == invalid_provider_line(sandbox@))
            },
        },
{
    let task_kind = match parse_task_kind(kind) {
        Some(k) => k,
        None => {
            let mut line = String::from_str(
                "{\"ok\":false,\"error\":\"invalid_kind\",\"message\":\"Unknown task kind: ",
            );
            push_str(&mut line, kind);
            push_str(&mut line, "\"}");
            return Err(line);
        },
    };
    let provider = match parse_provider(sandbox) {
        Some(p) => p,
        None => {
            let mut line = String::from_str(
                "{\"ok\":false,\"error\":\"invalid_provider\",\"message\":\"Unknown provider: ",
            );
            push_str(&mut line, sandbox);
            push_str(&mut line, "\"}");
            return Err(line);
        },
    };
    Ok(
        crate::protocol::CreateTaskRequest {
            workspace_path: workspace,
            kind: task_kind,
            sandbox: crate::protocol::SandboxProfile { provider, template: None },
        },
    )
}

/// The stderr line when the daemon cannot be reached at `url`.
pub fn daemon_unreachable_line(url: &str) -> (r: String)
    ensures
        r@ == "{\"ok\":false,\"error\":\"daemon_unreachable\",\"message\":\"Daemon is not running at "@
            + url@ + ". Start it with: qingluan-daemon\"}"@,
{
    let mut line = String::from_str(
        "{\"ok\":false,\"error\":\"daemon_unreachable\",\"message\":\"Daemon is not running at ",
    );
    push_str(&mut line, url);
    push_str(&mut line, ". Start it with: qingluan-daemon\"}");
    line
}

/// The stderr line when a daemon response cannot be parsed.
pub fn parse_error_line(error: &str) -> (r: String)
    ensures
        r@ == "{\"ok\":false,\"error\":\"parse_error\",\"message\":\""@ + error@ + "\"}"@,
{
    let mut line = String::from_str("{\"ok\":false,\"error\":\"parse_error\",\"message\":\"");
    push_str(&mut line, error);
    push_str(&mut line, "\"}");
    line
}

} // verus!
verus! {

/// Whether `s` ends with a counter suffix ` [#n]` (`n >= 2`).
pub open spec fn has_counter_suffix(s: Seq<char>) -> bool {
    exists|base: Seq<char>, n: nat| n >= 2 && s == base + counter_suffix(n)
}

proof fn lemma_counter_suffix_unique(b1: Seq<char>, n1: nat, b2: Seq<char>, n2: nat)
    requires
        b1 + counter_suffix(n1) == b2 + counter_suffix(n2),
    ensures
        b1 == b2 && n1 == n2,
{
    let s = b1 + counter_suffix(n1);
    let d1 = decimal(n1);
    let d2 = decimal(n2);
    crate::text::lemma_decimal_digits(n1);
    crate::text::lemma_decimal_digits(n2);
    reveal_strlit(" [#");
    reveal_strlit("]");
    let l = s.len();
    assert(counter_suffix(n1) =~= seq![' ', '[', '#'] + d1 + seq![']']);
    assert(counter_suffix(n2) =~= seq![' ', '[', '#'] + d2 + seq![']']);
    if d1.len() < d2.len() {
        let k = l - 2 - d1.len();
        assert(s[k] == '#');
        assert(s[k] == d2[d2.len() - 1 - d1.len()]);
    } else if d2.len() < d1.len() {
        let k = l - 2 - d2.len();
        assert(s[k] == '#');
        assert(s[k] == d1[d1.len() - 1 - d2.len()]);
    }
    assert(d1.len() == d2.len());
    assert(b1.len() == b2.len());
    assert(b1 =~= s.take(b1.len() as int));
    assert(b2 =~= s.take(b2.len() as int));
    assert forall|k: int| 0 <= k < d1.len() implies d1[k] == d2[k] by {
        assert(s[b1.len() + 3 + k] == d1[k]);
        assert(s[b2.len() + 3 + k] == d2[k]);
    }
    assert(d1 =~= d2);
    crate::text::lemma_decimal_injective(n1, n2);
}

proof fn lemma_count_grows(s: Seq<Seq<char>>, i: int, j: int)
    requires
        0 <= i < j <= s.len(),
    ensures
        count_of(s.take(j), s[i]) >= count_of(s.take(i), s[i]) + 1,
    decreases j - i,
{
    assert(s.take(j).drop_last() =~= s.take(j - 1));
    if j > i + 1 {
        lemma_count_grows(s, i, j - 1);
    } else {
        assert(s.take(j).last() == s[i]);
    }
}

proof fn lemma_numbered_label_injective(label: Seq<char>, a: nat, b: nat)
    requires
        1 <= a,
        1 <= b,
        numbered_label(label, a) == numbered_label(label, b),
    ensures
        a == b,
{
    reveal_strlit(" [#");
    if a >= 2 && b >= 2 {
        lemma_counter_suffix_unique(label, a, label, b);
    } else if a >= 2 {
        assert((label + counter_suffix(a)).len() > label.len());
    } else if b >= 2 {
        assert((label + counter_suffix(b)).len() > label.len());
    }
}

proof fn lemma_free_slot_from(label: Seq<char>, h: Seq<Seq<char>>, n: nat, fuel: nat)
    ensures
        n <= free_slot_from(label, h, n, fuel) <= n + fuel,
        forall|m: nat|
            n <= m < free_slot_from(label, h, n, fuel) ==> h.contains(#[trigger] numbered_label(label, m)),
        !h.contains(numbered_label(label, free_slot_from(label, h, n, fuel)))
            || free_slot_from(label, h, n, fuel) == n + fuel,
    decreases fuel,
{
    if fuel > 0 && h.contains(numbered_label(label, n)) {
        lemma_free_slot_from(label, h, n + 1, (fuel - 1) as nat);
    }
}

proof fn lemma_free_slot_at(label: Seq<char>, h: Seq<Seq<char>>, n: nat, fuel: nat, k: nat)
    requires
        n <= k <= n + fuel,
        forall|m: nat| n <= m < k ==> h.contains(#[trigger] numbered_label(label, m)),
        !h.contains(numbered_label(label, k)),
    ensures
        free_slot_from(label, h, n, fuel) == k,
    decreases fuel,
{
    if k > n {
        assert(h.contains(numbered_label(label, n)));
        lemma_free_slot_at(label, h, n + 1, (fuel - 1) as nat, k);
    }
}

/// Among `h.len() + 1` slots some candidate is not in `h`.
proof fn lemma_slots_not_all_taken(label: Seq<char>, h: Seq<Seq<char>>)
    ensures
        exists|m: nat| 1 <= m <= h.len() + 1 && !h.contains(#[trigger] numbered_label(label, m)),
{
    broadcast use vstd::seq_lib::seq_to_set_is_finite;
    if forall|m: nat| 1 <= m <= h.len() + 1 ==> h.contains(#[trigger] numbered_label(label, m)) {
        let x = vstd::set_lib::set_int_range(1, h.len() + 2int);
        let f = |k: int| numbered_label(label, k as nat);
        vstd::set_lib::lemma_int_range(1, h.len() + 2int);
        assert forall|a: int, b: int| x.contains(a) && x.contains(b) && #[trigger] f(a) == #[trigger] f(b) implies a == b by {
            lemma_numbered_label_injective(label, a as nat, b as nat);
        }
        assert(vstd::relations::injective_on(f, x));
        let y = x.map(f);
        vstd::set_lib::lemma_map_size(x, y, f);
        assert forall|t: Seq<char>| y.contains(t) implies h.to_set().contains(t) by {
            let k = choose|k: int| x.contains(k) && t == f(k);
            assert(h.contains(numbered_label(label, k as nat)));
        }
        assert(y.subset_of(h.to_set()));
        vstd::set_lib::lemma_len_subset(y, h.to_set());
        h.lemma_cardinality_of_set();
    }
}

/// The label handed out is never one handed out before.
pub proof fn lemma_handed_label_fresh(label: Seq<char>, handed: Seq<Seq<char>>)
    ensures
        !handed.contains(handed_label(label, handed)),
{
    let r = free_slot(label, handed);
    lemma_free_slot_from(label, handed, 1, handed.len());
    if handed.contains(numbered_label(label, r)) {
        lemma_slots_not_all_taken(label, handed);
        let m = choose|m: nat| 1 <= m <= handed.len() + 1 && !handed.contains(#[trigger] numbered_label(label, m));
        assert(m < r || m == r);
    }
}

/// Selector labels are globally unique: no two labels handed out for a
/// sequence of bases are equal, whatever the bases.
pub proof fn lemma_unique_labels_distinct(bases: Seq<Seq<char>>)
    ensures
        unique_labels(bases).len() == bases.len(),
        forall|i: int, j: int|
            0 <= i < j < bases.len() ==> unique_labels(bases)[i] != unique_labels(bases)[j],
    decreases bases.len(),
{
    if bases.len() > 0 {
        let p = unique_labels(bases.drop_last());
        lemma_unique_labels_distinct(bases.drop_last());
        lemma_handed_label_fresh(bases.last(), p);
        let u = unique_labels(bases);
        assert forall|i: int, j: int| 0 <= i < j < bases.len() implies u[i] != u[j] by {
            assert(u[i] == p[i]);
            if j < p.len() {
                assert(u[j] == p[j]);
            } else {
                assert(u[j] == handed_label(bases.last(), p));
                assert(p.contains(p[i]));
            }
        }
    }
}

proof fn lemma_count_witness(s: Seq<Seq<char>>, x: Seq<char>, m: nat)
    requires
        m < count_of(s, x),
    ensures
        exists|j: int| 0 <= j < s.len() && s[j] == x && count_of(#[trigger] s.take(j), x) == m,
    decreases s.len(),
{
    let d = s.drop_last();
    if m < count_of(d, x) {
        lemma_count_witness(d, x, m);
        let j = choose|j: int| 0 <= j < d.len() && d[j] == x && count_of(#[trigger] d.take(j), x) == m;
        assert(s.take(j) =~= d.take(j));
        assert(s[j] == d[j]);
    } else {
        let j = s.len() - 1;
        assert(s.take(j) =~= d);
        assert(s[j] == x);
    }
}

/// For bases none of which already ends like a counter suffix ` [#n]`, the
/// labels handed out number each label by its occurrence.
pub proof fn lemma_unique_labels_numbered(bases: Seq<Seq<char>>)
    requires
        forall|i: int| 0 <= i < bases.len() ==> !has_counter_suffix(#[trigger] bases[i]),
    ensures
        unique_labels(bases) == numbered_labels(bases),
    decreases bases.len(),
{
    if bases.len() > 0 {
        let n = bases.len() - 1;
        let init = bases.drop_last();
        let b = bases.last();
        assert forall|i: int| 0 <= i < init.len() implies !has_counter_suffix(#[trigger] init[i]) by {
            assert(init[i] == bases[i]);
        }
        lemma_unique_labels_numbered(init);
        let p = unique_labels(init);
        assert(p == numbered_labels(init));
        let c = count_of(init, b);
        assert(bases.take(n) =~= init);
        // every slot below c + 1 is taken
        assert forall|m: nat| 1 <= m < c + 1 implies p.contains(#[trigger] numbered_label(b, m)) by {
            lemma_count_witness(init, b, (m - 1) as nat);
            let j = choose|j: int|
                0 <= j < init.len() && init[j] == b && count_of(#[trigger] init.take(j), b) == m - 1;
            assert(p[j] == numbered_label(b, m));
        }
        // slot c + 1 is free
        if p.contains(numbered_label(b, c + 1)) {
            let j = choose|j: int| 0 <= j < p.len() && p[j] == numbered_label(b, c + 1);
            let cj = count_of(init.take(j), init[j]);
            assert(p[j] == numbered_label(init[j], cj + 1));
            assert(init.take(init.len() as int) =~= init);
            if cj + 1 <= 1 {
                if c == 0 {
                    lemma_count_grows(init, j, init.len() as int);
                } else {
                    assert(init[j] == b + counter_suffix(c + 1));
                    assert(has_counter_suffix(init[j]));
                }
            } else {
                if c == 0 {
                    assert(b == init[j] + counter_suffix(cj + 1));
                    assert(has_counter_suffix(b));
                } else {
                    lemma_counter_suffix_unique(init[j], cj + 1, b, c + 1);
                    lemma_count_grows(init, j, init.len() as int);
                }
            }
        }
        lemma_count_bound(init, b);
        lemma_unique_labels_distinct(init);
        lemma_free_slot_at(b, p, 1, p.len(), c + 1);
        let u = unique_labels(bases);
        let v = numbered_labels(bases);
        assert forall|i: int| 0 <= i < bases.len() implies u[i] == v[i] by {
            if i < n {
                assert(bases.take(i) =~= init.take(i));
                assert(u[i] == p[i]);
            }
        }
        assert(u =~= v);
    }
}

proof fn lemma_count_bound(s: Seq<Seq<char>>, x: Seq<char>)
    ensures
        count_of(s, x) <= s.len(),
    decreases s.len(),
{
    if s.len() > 0 {
        lemma_count_bound(s.drop_last(), x);
    }
}

/// Whether `s` ends in a digit followed by `]`, as every counter suffix
/// does.
pub open spec fn ends_like_counter(s: Seq<char>) -> bool {
    s.len() >= 2 && s.last() == ']' && is_digit(s[s.len() - 2])
}

/// A reason that ends neither in a digit nor in `]` (or is empty), such as
/// the one the catalog gives a missing root.
pub open spec fn reason_ends_plainly(r: Seq<char>) -> bool {
    r.len() == 0 || (!is_digit(r.last()) && r.last() != ']')
}

proof fn lemma_counter_suffix_end(s: Seq<char>)
    requires
        has_counter_suffix(s),
    ensures
        ends_like_counter(s),
{
    let (base, n) = choose|base: Seq<char>, n: nat| n >= 2 && s == base + counter_suffix(n);
    let d = decimal(n);
    crate::text::lemma_decimal_digits(n);
    reveal_strlit(" [#");
    reveal_strlit("]");
    assert(s =~= base + seq![' ', '[', '#'] + d + seq![']']);
    assert(s[s.len() - 2] == d[d.len() - 1]);
}

proof fn lemma_entry_labels_plain(ws: Seq<WorkspaceSummary>)
    requires
        forall|k: int|
            0 <= k < ws.len() && !(#[trigger] ws[k]).available ==> reason_ends_plainly(
                workspace_reason(ws[k]),
            ),
    ensures
        forall|i: int| 0 <= i < all_entries(ws).len() ==> !ends_like_counter(#[trigger] all_entries(ws)[i].0),
    decreases ws.len(),
{
    if ws.len() > 0 {
        let init = ws.drop_last();
        let w = ws.last();
        assert forall|k: int|
            0 <= k < init.len() && !(#[trigger] init[k]).available implies reason_ends_plainly(
            workspace_reason(init[k]),
        ) by {
            assert(init[k] == ws[k]);
        }
        lemma_entry_labels_plain(init);
        assert(ws[ws.len() - 1] == w);
        let a = all_entries(init);
        let e = workspace_entries(w);
        let all = all_entries(ws);
        assert(all == a + e);
        let ss = w.sessions@;
        let head = w.name@ + label_sep();
        let reason = workspace_reason(w);
        reveal_strlit(")");
        reveal_strlit("\u{271a} new session");
        reveal_strlit("\u{d7} ");
        reveal_strlit(" [");
        reveal_strlit("]");
        assert forall|i: int| 0 <= i < all.len() implies !ends_like_counter(#[trigger] all[i].0) by {
            if i < a.len() {
                assert(all[i] == a[i]);
            } else {
                let j = i - a.len();
                assert(all[i] == e[j]);
                let l = e[j].0;
                if w.available {
                    if j < ss.len() {
                        let t = session_entry_text(ss[j]);
                        assert(l == head + t);
                        assert(t.last() == ')');
                        assert(l.last() == ')');
                    } else {
                        assert(l == head + "\u{271a} new session"@);
                        assert(l.last() == 'n');
                    }
                } else if ss.len() == 0 {
                    let x = "\u{d7} "@;
                    assert(l == head + x + reason);
                    if reason.len() == 0 {
                        assert(l.last() == ' ');
                    } else {
                        assert(l.last() == reason.last());
                    }
                } else {
                    let pre = head + "\u{d7} "@ + session_entry_text(ss[j]) + " ["@;
                    assert(l == pre + reason + "]"@);
                    if reason.len() == 0 {
                        assert(l[l.len() - 2] == '[');
                    } else {
                        assert(l[l.len() - 2] == reason.last());
                    }
                }
            }
        }
    }
}

/// When no unavailable workspace's reason ends in a digit or `]` (the
/// catalog's missing-root reason does not), the selector's labels number
/// each repeated label by its occurrence.
pub proof fn lemma_selector_labels_numbered(ws: Seq<WorkspaceSummary>)
    requires
        forall|k: int|
            0 <= k < ws.len() && !(#[trigger] ws[k]).available ==> reason_ends_plainly(
                workspace_reason(ws[k]),
            ),
    ensures
        unique_labels(all_entries(ws).map_values(|e: (Seq<char>, ChoiceView)| e.0))
            == numbered_labels(all_entries(ws).map_values(|e: (Seq<char>, ChoiceView)| e.0)),
{
    let bases = all_entries(ws).map_values(|e: (Seq<char>, ChoiceView)| e.0);
    lemma_entry_labels_plain(ws);
    assert forall|i: int| 0 <= i < bases.len() implies !has_counter_suffix(#[trigger] bases[i]) by {
        assert(bases[i] == all_entries(ws)[i].0);
        if has_counter_suffix(bases[i]) {
            lemma_counter_suffix_end(bases[i]);
        }
    }
    lemma_unique_labels_numbered(bases);
}

/// The reason the catalog gives a workspace whose root is missing ends
/// plainly, so [`lemma_selector_labels_numbered`] applies to every catalog
/// that [`crate::catalog::build_catalog`] makes.
pub proof fn lemma_missing_root_reason_plain()
    ensures
        reason_ends_plainly(crate::catalog::missing_root_reason()),
{
    reveal_strlit("workspace root not found on disk");
}

} // verus!
