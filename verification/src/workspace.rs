//! JJ workspace discovery: reading `jj workspace list` output and the
//! errors that discovery reports.

use vstd::prelude::*;

use crate::catalog::RegisteredWorkspace;
use crate::json::{json_stream_strings, json_string_stream, opt_views};
use crate::text::{
    chars_of, decode_lossy, lossy_utf8, push_signed_decimal, push_str, signed_decimal,
    string_from_chars, trim_chars, trimmed,
};

verus! {

/// Template emitting one `"<name>"\t"<root>"\n` line per workspace.
pub const WORKSPACE_LIST_TEMPLATE: &'static str = "json(self.name()) ++ \"\\t\" ++ json(self.root()) ++ \"\\n\"";

/// Errors produced by workspace/session discovery.
#[derive(Debug, Clone, PartialEq, Eq)]
pub enum WorkspaceError {
    /// The caller's working directory is not inside a JJ repository.
    NotInJjRepository {
        /// Trimmed stderr produced by `jj workspace list`.
        stderr: String,
    },
    /// The `jj` binary could not be executed.
    JjSpawn {
        /// Underlying io error message.
        message: String,
    },
    /// `jj workspace list` exited with a nonzero status for another reason.
    JjCommandFailed {
        /// Exit code, if any.
        code: Option<i32>,
        /// Trimmed stderr produced by `jj`.
        stderr: String,
    },
}

impl WorkspaceError {
    /// Machine-readable error code.
    pub open spec fn spec_code(&self) -> Seq<char> {
        match self {
            WorkspaceError::NotInJjRepository { .. } => "not_in_jj_repository"@,
            WorkspaceError::JjSpawn { .. } => "jj_spawn_failed"@,
            WorkspaceError::JjCommandFailed { .. } => "jj_command_failed"@,
        }
    }

    /// Machine-readable error code for adapters.
    pub fn code(&self) -> (r: &'static str)
        ensures
            r@ == self.spec_code(),
    {
        match self {
            WorkspaceError::NotInJjRepository { .. } => "not_in_jj_repository",
            WorkspaceError::JjSpawn { .. } => "jj_spawn_failed",
            WorkspaceError::JjCommandFailed { .. } => "jj_command_failed",
        }
    }

    /// Human-readable message.
    pub open spec fn spec_message(&self) -> Seq<char> {
        match self {
            WorkspaceError::NotInJjRepository { stderr } => "not inside a jj repository: "@
                + stderr@,
            WorkspaceError::JjSpawn { message } => "failed to run jj: "@ + message@,
            WorkspaceError::JjCommandFailed { code, stderr } => "jj workspace list failed (exit code "@
                + match code {
                Some(c) => "Some("@ + signed_decimal(*c as int) + ")"@,
                None => "None"@,
            } + "): "@ + stderr@,
        }
    }

    /// Human-readable message (what the error displays as).
    pub fn message(&self) -> (r: String)
        ensures
            r@ == self.spec_message(),
    {
        match self {
            WorkspaceError::NotInJjRepository { stderr } => {
                let mut out = String::from_str("not inside a jj repository: ");
                push_str(&mut out, stderr.as_str());
                out
            },
            WorkspaceError::JjSpawn { message } => {
                let mut out = String::from_str("failed to run jj: ");
                push_str(&mut out, message.as_str());
                out
            },
            WorkspaceError::JjCommandFailed { code, stderr } => {
                let mut out = String::from_str("jj workspace list failed (exit code ");
                match code {
                    Some(c) => {
                        push_str(&mut out, "Some(");
                        push_signed_decimal(&mut out, *c as i64);
                        push_str(&mut out, ")");
                    },
                    None => push_str(&mut out, "None"),
                }
                push_str(&mut out, "): ");
                push_str(&mut out, stderr.as_str());
                out
            },
        }
    }
}

/// The strings among the items, in order.
pub open spec fn present(items: Seq<Option<Seq<char>>>) -> Seq<Seq<char>>
    decreases items.len(),
{
    if items.len() == 0 {
        Seq::empty()
    } else {
        let p = present(items.drop_last());
        match items.last() {
            Some(s) => p.push(s),
            None => p,
        }
    }
}

/// Consecutive strings paired as (name, root); an odd last string is
/// dropped.
pub open spec fn workspace_pairs(strs: Seq<Seq<char>>) -> Seq<(Seq<char>, Seq<char>)> {
    Seq::new(strs.len() / 2, |i: int| (strs[2 * i], strs[2 * i + 1]))
}

/// Views of registered workspaces.
pub open spec fn registered_views(ws: Seq<RegisteredWorkspace>) -> Seq<(Seq<char>, Seq<char>)> {
    ws.map_values(|w: RegisteredWorkspace| (w.name@, w.root@))
}

/// Pair the strings of a stream of JSON values as workspace (name, root)
/// pairs; values that are not strings are ignored.
pub fn pair_workspace_strings(items: Vec<Option<String>>) -> (r: Vec<RegisteredWorkspace>)
    ensures
        registered_views(r@) == workspace_pairs(present(opt_views(items@))),
{
    let mut out: Vec<RegisteredWorkspace> = Vec::new();
    let mut pending: Option<String> = None;
    let mut i: usize = 0;
    while i < items.len()
        invariant
            i <= items@.len(),
            ({
                let strs = present(opt_views(items@.take(i as int)));
                &&& registered_views(out@) == workspace_pairs(strs)
                &&& match pending {
                    Some(p) => strs.len() % 2 == 1 && p@ == strs.last(),
                    None => strs.len() % 2 == 0,
                }
            }),
        decreases items.len() - i,
    {
        let ghost prev = present(opt_views(items@.take(i as int)));
        proof {
            assert(opt_views(items@.take(i + 1)) =~= opt_views(items@.take(i as int)).push(
                opt_views(items@)[i as int],
            ));
            assert(opt_views(items@.take(i + 1)).drop_last() =~= opt_views(items@.take(i as int)));
        }
        match &items[i] {
            Some(s) => {
                match pending {
                    Some(name) => {
                        let ghost before = out@;
                        out.push(RegisteredWorkspace { name, root: s.clone() });
                        pending = None;
                        proof {
                            let strs = prev.push(s@);
                            assert(present(opt_views(items@.take(i + 1))) == strs);
                            assert(strs.len() / 2 == prev.len() / 2 + 1);
                            assert(registered_views(out@) =~= registered_views(before).push(
                                (prev.last(), s@),
                            ));
                            assert(registered_views(out@) =~= workspace_pairs(strs));
                        }
                    },
                    None => {
                        pending = Some(s.clone());
                        proof {
                            let strs = prev.push(s@);
                            assert(workspace_pairs(strs) =~= workspace_pairs(prev));
                        }
                    },
                }
            },
            None => {},
        }
        i = i + 1;
    }
    assert(items@.take(items@.len() as int) =~= items@);
    out
}

/// Parse `jj workspace list` template output into registered workspaces.
///
/// The template emits a stream of JSON strings: name, root, name, root, …
/// Non-string values are ignored, and so is an odd trailing string.
pub fn parse_workspace_list_output(output: &str) -> (r: Vec<RegisteredWorkspace>)
    ensures
        registered_views(r@) == workspace_pairs(present(json_string_stream(output@))),
{
    let items = json_stream_strings(output);
    pair_workspace_strings(items)
}

/// Whether `pat` occurs in `s`.
pub open spec fn contains_seq(s: Seq<char>, pat: Seq<char>) -> bool {
    exists|i: int| 0 <= i && i + pat.len() <= s.len() && #[trigger] s.subrange(i, i + pat.len()) == pat
}

/// Whether `pat` occurs in `s`.
pub fn contains_chars(s: &Vec<char>, pat: &Vec<char>) -> (r: bool)
    ensures
        r == contains_seq(s@, pat@),
{
    let n = s.len();
    let m = pat.len();
    if m > n {
        return false;
    }
    let mut i: usize = 0;
    while i <= n - m
        invariant
            m <= n,
            n == s@.len(),
            m == pat@.len(),
            forall|k: int| 0 <= k < i ==> #[trigger] s@.subrange(k, k + m) != pat@,
        decreases n - m + 1 - i,
    {
        let mut j: usize = 0;
        while j < m && s[i + j] == pat[j]
            invariant
                j <= m,
                i + m <= n,
                n == s@.len(),
                m == pat@.len(),
                forall|t: int| 0 <= t < j ==> s@[i + t] == pat@[t],
            decreases m - j,
        {
            j = j + 1;
        }
        if j == m {
            assert(s@.subrange(i as int, i + m) =~= pat@);
            return true;
        }
        assert(s@.subrange(i as int, i + m)[j as int] != pat@[j as int]);
        i = i + 1;
    }
    assert forall|k: int| 0 <= k && k + m <= n implies #[trigger] s@.subrange(k, k + m) != pat@ by {
        assert(k < i);
    }
    false
}

/// The outcome of `jj workspace list`, given whether it succeeded, its exit
/// code and its output decoded as text.
pub open spec fn spec_workspace_list_outcome(
    success: bool,
    code: Option<i32>,
    stdout: Seq<char>,
    stderr: Seq<char>,
) -> Result<Seq<(Seq<char>, Seq<char>)>, (Seq<char>, Seq<char>)> {
    if success {
        Ok(workspace_pairs(present(json_string_stream(stdout))))
    } else if contains_seq(trimmed(stderr), "no jj repo"@) {
        Err(("not_in_jj_repository"@, trimmed(stderr)))
    } else {
        Err(("jj_command_failed"@, trimmed(stderr)))
    }
}

/// Interpret a finished `jj workspace list` from its raw output, decoded as
/// UTF-8 with invalid sequences replaced: its listing on success; otherwise
/// [`WorkspaceError::NotInJjRepository`] when the trimmed stderr mentions
/// `no jj repo`, else [`WorkspaceError::JjCommandFailed`] with the exit code
/// and trimmed stderr.
pub fn interpret_workspace_list(success: bool, code: Option<i32>, stdout: &[u8], stderr: &[u8]) -> (r:
    Result<Vec<RegisteredWorkspace>, WorkspaceError>)
    ensures
        match spec_workspace_list_outcome(success, code, lossy_utf8(stdout@), lossy_utf8(stderr@)) {
            Ok(ws) => r matches Ok(v) && registered_views(v@) == ws,
            Err((c, e)) => r matches Err(err) && err.spec_code() == c && match err {
                WorkspaceError::NotInJjRepository { stderr } => stderr@ == e,
                WorkspaceError::JjCommandFailed { code: k, stderr } => k == code && stderr@ == e,
                WorkspaceError::JjSpawn { .. } => false,
            },
        },
{
    if success {
        let text = decode_lossy(stdout);
        return Ok(parse_workspace_list_output(text.as_str()));
    }
    let err_text = decode_lossy(stderr);
    let t = trim_chars(chars_of(err_text.as_str()).as_slice());
    let pat = chars_of("no jj repo");
    let trimmed_stderr = string_from_chars(t.as_slice());
    if contains_chars(&t, &pat) {
        Err(WorkspaceError::NotInJjRepository { stderr: trimmed_stderr })
    } else {
        Err(WorkspaceError::JjCommandFailed { code, stderr: trimmed_stderr })
    }
}

} // verus!
