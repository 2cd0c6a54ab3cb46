//! Pi session summaries.
//!
//! A session file is a sequence of JSON lines. Each line reaches the library
//! as a [`SessionLine`]: what the summary reads of it, as plain values. The
//! summary follows Pi's display semantics: the first significant entry must
//! be a `session` header with a string `id` and an absolute `cwd`; the title
//! is the latest nonblank `session_info` name, else the first nonempty user
//! text, else `(no messages)`; every `message` entry is counted; the
//! modified time is the latest activity of user/assistant messages with
//! content, else the header timestamp, else the file's mtime.

use vstd::prelude::*;

use crate::text::{
    chars_of, join, opt_is, opt_str_is, push_str, string_from_chars, trim_chars,
    trimmed,
};
use crate::time::{format_iso8601_ms, parse_iso8601_ms, spec_format_iso8601_ms, spec_parse_iso8601_ms};

verus! {

/// One text block of an array-valued message `content`.
#[derive(Debug, Clone, PartialEq, Eq)]
pub struct ContentBlock {
    /// The block's `type`, when it is a string.
    pub block_type: Option<String>,
    /// The block's `text`, when it is a string.
    pub text: Option<String>,
}

/// The `content` field of a message.
#[derive(Debug, Clone, PartialEq, Eq)]
pub enum ContentField {
    /// No `content` field.
    Absent,
    /// A string.
    Text(String),
    /// An array of blocks.
    Blocks(Vec<ContentBlock>),
    /// Any other JSON value.
    Other,
}

/// The `message` object of a `message` entry.
#[derive(Debug, Clone, PartialEq, Eq)]
pub struct MessageBody {
    /// `message.role`, when it is a string.
    pub role: Option<String>,
    /// `message.content`.
    pub content: ContentField,
    /// `message.timestamp` in epoch milliseconds, when it is a number.
    pub timestamp_ms: Option<u64>,
}

/// The `message` field of an entry.
#[derive(Debug, Clone, PartialEq, Eq)]
pub enum MessageField {
    /// Missing, or not a JSON object.
    Invalid,
    /// A JSON object.
    Object(MessageBody),
}

/// The fields of one JSON object entry that the summary reads.
#[derive(Debug, Clone, PartialEq, Eq)]
pub struct LineEntry {
    /// `type`, when it is a string.
    pub entry_type: Option<String>,
    /// `id`, when it is a string.
    pub id: Option<String>,
    /// `cwd`, when it is a string.
    pub cwd: Option<String>,
    /// `timestamp`, when it is a string.
    pub timestamp: Option<String>,
    /// `name`, when it is a string.
    pub name: Option<String>,
    /// `message`.
    pub message: MessageField,
}

/// One line of a session file.
#[derive(Debug, Clone, PartialEq, Eq)]
pub enum SessionLine {
    /// The line could not be read.
    Unreadable,
    /// A blank or malformed line, or a falsey JSON value (`null`, `false`,
    /// `0`, `""`).
    Skipped,
    /// Any other JSON value.
    Entry(LineEntry),
}

/// A scanned Pi session file.
#[derive(Debug, Clone, PartialEq, Eq)]
pub struct ScannedSession {
    /// Path of the `.jsonl` file.
    pub file: String,
    /// Session id from the header.
    pub session_id: Option<String>,
    /// Session cwd from the header: a nonempty absolute path.
    pub cwd: String,
    /// Derived title.
    pub title: String,
    /// Count of all `message` entries.
    pub message_count: u32,
    /// Latest activity (epoch ms) over user/assistant messages with content.
    pub last_activity_ms: Option<u64>,
    /// Header timestamp (epoch ms), when parseable.
    pub header_ms: Option<u64>,
    /// Filesystem modification time (epoch ms), 0 when unavailable.
    pub mtime_ms: u64,
}

impl ScannedSession {
    /// Effective modified time: positive latest activity, else the header
    /// time, else the mtime.
    pub open spec fn spec_modified_ms(&self) -> u64 {
        match self.last_activity_ms {
            Some(ms) if ms > 0 => ms,
            _ => match self.header_ms {
                Some(h) => h,
                None => self.mtime_ms,
            },
        }
    }

    /// Effective modified time in epoch ms (Pi fallback chain).
    pub fn modified_ms(&self) -> (r: u64)
        ensures
            r == self.spec_modified_ms(),
            self.last_activity_ms is Some && self.last_activity_ms.unwrap() > 0 ==> r == self.last_activity_ms.unwrap(),
            !(self.last_activity_ms is Some && self.last_activity_ms.unwrap() > 0) && self.header_ms is Some
                ==> r == self.header_ms.unwrap(),
            !(self.last_activity_ms is Some && self.last_activity_ms.unwrap() > 0) && self.header_ms is None ==> r
                == self.mtime_ms,
    {
        match self.last_activity_ms {
            Some(ms) if ms > 0 => ms,
            _ => match self.header_ms {
                Some(h) => h,
                None => self.mtime_ms,
            },
        }
    }

    /// Effective modified time as UTC ISO-8601.
    pub fn modified_iso(&self) -> (r: String)
        ensures
            r@ == spec_format_iso8601_ms(self.spec_modified_ms() as nat),
    {
        format_iso8601_ms(self.modified_ms())
    }
}

/// The optional string's characters.
pub open spec fn opt_view(o: Option<String>) -> Option<Seq<char>> {
    match o {
        Some(s) => Some(s@),
        None => None,
    }
}

/// Number of leading skipped lines.
pub open spec fn first_unskipped(lines: Seq<SessionLine>) -> nat
    decreases lines.len(),
{
    if lines.len() > 0 && lines[0] is Skipped {
        1 + first_unskipped(lines.drop_first())
    } else {
        0
    }
}

/// A `session` header with a string id and a nonempty absolute cwd.
pub open spec fn is_valid_header(l: SessionLine) -> bool {
    match l {
        SessionLine::Entry(e) => {
            &&& opt_is(e.entry_type, "session"@)
            &&& e.id is Some
            &&& e.cwd matches Some(c) && c@.len() > 0 && c@[0] == '/'
        },
        _ => false,
    }
}

/// Whether the line is an entry of type `t`.
pub open spec fn has_type(l: SessionLine, t: Seq<char>) -> bool {
    match l {
        SessionLine::Entry(e) => opt_is(e.entry_type, t),
        _ => false,
    }
}

/// The message of a `message` entry from the user or the assistant that has
/// content.
pub open spec fn qualifying_message(l: SessionLine) -> Option<MessageBody> {
    match l {
        SessionLine::Entry(e) => {
            if opt_is(e.entry_type, "message"@) {
                match e.message {
                    MessageField::Object(b) => {
                        if (opt_is(b.role, "user"@) || opt_is(b.role, "assistant"@))
                            && !(b.content is Absent) {
                            Some(b)
                        } else {
                            None
                        }
                    },
                    MessageField::Invalid => None,
                }
            } else {
                None
            }
        },
        _ => None,
    }
}

/// Texts of the `text` blocks that carry a string `text`, in order.
pub open spec fn block_texts(bs: Seq<ContentBlock>) -> Seq<Seq<char>>
    decreases bs.len(),
{
    if bs.len() == 0 {
        Seq::empty()
    } else {
        let p = block_texts(bs.drop_last());
        let b = bs.last();
        if opt_is(b.block_type, "text"@) && b.text is Some {
            p.push(b.text.unwrap()@)
        } else {
            p
        }
    }
}

/// Display text of message content: a string as is, the text blocks of an
/// array joined by single spaces, nothing for other shapes.
pub open spec fn content_text(c: ContentField) -> Option<Seq<char>> {
    match c {
        ContentField::Text(s) => Some(s@),
        ContentField::Blocks(bs) => Some(join(block_texts(bs@), seq![' '])),
        _ => None,
    }
}

/// A line after the header that makes the whole file invalid: an unreadable
/// line, a `message` entry without an object `message`, or a qualifying
/// message whose content has no text shape.
pub open spec fn is_fatal(l: SessionLine) -> bool {
    ||| l is Unreadable
    ||| (has_type(l, "message"@) && l->Entry_0.message is Invalid)
    ||| (qualifying_message(l) matches Some(b) && content_text(b.content) is None)
}

/// Lines after the header.
pub open spec fn session_body(lines: Seq<SessionLine>) -> Seq<SessionLine> {
    lines.skip(first_unskipped(lines) + 1int)
}

/// Whether the lines form a Pi session.
pub open spec fn is_session(lines: Seq<SessionLine>) -> bool {
    let h = first_unskipped(lines);
    &&& h < lines.len()
    &&& is_valid_header(lines[h as int])
    &&& forall|i: int| 0 <= i < session_body(lines).len() ==> !is_fatal(#[trigger] session_body(lines)[i])
}

/// The name set by the latest `session_info` entry: its trimmed `name`, or
/// nothing when that name is missing or blank.
pub open spec fn latest_name(s: Seq<SessionLine>) -> Option<Seq<char>>
    decreases s.len(),
{
    if s.len() == 0 {
        None
    } else if has_type(s.last(), "session_info"@) {
        match s.last()->Entry_0.name {
            Some(n) => if trimmed(n@).len() > 0 {
                Some(trimmed(n@))
            } else {
                None
            },
            None => None,
        }
    } else {
        latest_name(s.drop_last())
    }
}

/// The nonempty text of a qualifying user message.
pub open spec fn user_text(l: SessionLine) -> Option<Seq<char>> {
    match qualifying_message(l) {
        Some(b) => {
            if opt_is(b.role, "user"@) {
                match content_text(b.content) {
                    Some(t) => if t.len() > 0 {
                        Some(t)
                    } else {
                        None
                    },
                    None => None,
                }
            } else {
                None
            }
        },
        None => None,
    }
}

/// The first nonempty user text.
pub open spec fn first_user_text(s: Seq<SessionLine>) -> Option<Seq<char>>
    decreases s.len(),
{
    if s.len() == 0 {
        None
    } else {
        match first_user_text(s.drop_last()) {
            Some(t) => Some(t),
            None => user_text(s.last()),
        }
    }
}

/// Title of a session with the given body.
pub open spec fn session_title(body: Seq<SessionLine>) -> Seq<char> {
    match latest_name(body) {
        Some(n) => n,
        None => match first_user_text(body) {
            Some(t) => t,
            None => "(no messages)"@,
        },
    }
}

/// Number of `message` entries.
pub open spec fn message_count(s: Seq<SessionLine>) -> nat
    decreases s.len(),
{
    if s.len() == 0 {
        0
    } else {
        message_count(s.drop_last()) + if has_type(s.last(), "message"@) {
            1nat
        } else {
            0
        }
    }
}

/// Activity time of a qualifying message: its numeric `message.timestamp`,
/// else the entry's ISO `timestamp`.
pub open spec fn activity(l: SessionLine) -> Option<u64> {
    match qualifying_message(l) {
        Some(b) => match b.timestamp_ms {
            Some(ms) => Some(ms),
            None => match l->Entry_0.timestamp {
                Some(t) => spec_parse_iso8601_ms(t@),
                None => None,
            },
        },
        None => None,
    }
}

/// Latest activity over the lines.
pub open spec fn latest_activity(s: Seq<SessionLine>) -> Option<u64>
    decreases s.len(),
{
    if s.len() == 0 {
        None
    } else {
        match (latest_activity(s.drop_last()), activity(s.last())) {
            (Some(a), Some(b)) => Some(if a >= b {
                a
            } else {
                b
            }),
            (Some(a), None) => Some(a),
            (None, b) => b,
        }
    }
}

} // verus!
verus! {

/// Display text of message content (Pi's `extractTextContent`): a string
/// is used directly; an array joins its `text` blocks with spaces; other
/// shapes give `None`.
pub fn extract_text(c: &ContentField) -> (r: Option<String>)
    ensures
        opt_view(r) == content_text(*c),
{
    match c {
        ContentField::Text(s) => Some(s.clone()),
        ContentField::Blocks(bs) => {
            let mut out = String::new();
            let mut count: usize = 0;
            let mut i: usize = 0;
            while i < bs.len()
                invariant
                    i <= bs@.len(),
                    out@ == join(block_texts(bs@.take(i as int)), seq![' ']),
                    count == block_texts(bs@.take(i as int)).len(),
                    count <= i,
                decreases bs.len() - i,
            {
                let b = &bs[i];
                let ghost prev = bs@.take(i as int);
                assert(bs@.take(i + 1).drop_last() =~= prev);
                if opt_str_is(&b.block_type, "text") {
                    match &b.text {
                        Some(t) => {
                            proof {
                                crate::text::lemma_join_push(block_texts(prev), seq![' '], t@);
                            }
                            if count > 0 {
                                push_str(&mut out, " ");
                                proof {
                                    reveal_strlit(" ");
                                }
                            }
                            push_str(&mut out, t.as_str());
                            count = count + 1;
                        },
                        None => {},
                    }
                }
                i = i + 1;
                proof {
                    assert(out@ =~= join(block_texts(bs@.take(i as int)), seq![' ']));
                }
            }
            assert(bs@.take(bs@.len() as int) =~= bs@);
            Some(out)
        },
        _ => None,
    }
}

} // verus!
verus! {

proof fn lemma_first_unskipped(lines: Seq<SessionLine>, k: int)
    requires
        0 <= k <= lines.len(),
        forall|j: int| 0 <= j < k ==> #[trigger] lines[j] is Skipped,
        k == lines.len() || !(lines[k] is Skipped),
    ensures
        first_unskipped(lines) == k,
    decreases k,
{
    if k > 0 {
        let t = lines.drop_first();
        assert forall|j: int| 0 <= j < k - 1 implies #[trigger] t[j] is Skipped by {
            assert(t[j] == lines[j + 1]);
        }
        if k < lines.len() {
            assert(t[k - 1] == lines[k]);
        }
        lemma_first_unskipped(t, k - 1);
    }
}

/// The title fields gathered by the scan, combined.
fn choose_title(name: Option<String>, first_text: Option<String>) -> (r: String)
    ensures
        r@ == (match opt_view(name) {
            Some(n) => n,
            None => match opt_view(first_text) {
                Some(t) => t,
                None => "(no messages)"@,
            },
        }),
{
    match name {
        Some(n) => n,
        None => match first_text {
            Some(t) => t,
            None => String::from_str("(no messages)"),
        },
    }
}

/// Summarize one session file from its lines.
///
/// Skipped lines are ignored everywhere; the first other line must be a
/// valid `session` header, and no later line may be fatal (see
/// [`is_fatal`]); otherwise the file is not a session.
pub fn summarize_session_entries(lines: &Vec<SessionLine>, file: &str, mtime_ms: u64) -> (r:
    Option<ScannedSession>)
    requires
        lines@.len() <= u32::MAX,
    ensures
        r is Some == is_session(lines@),
        r matches Some(v) ==> {
            let header = lines@[first_unskipped(lines@) as int]->Entry_0;
            let body = session_body(lines@);
            &&& v.file@ == file@
            &&& opt_view(v.session_id) == opt_view(header.id)
            &&& Some(v.cwd@) == opt_view(header.cwd)
            &&& v.title@ == session_title(body)
            &&& forall|i: int|
                0 <= i < body.len() && latest_name(body) is None && #[trigger] user_text(body[i])
                    is Some && (forall|j: int| 0 <= j < i ==> user_text(#[trigger] body[j]) is None)
                    ==> v.title@ == user_text(body[i]).unwrap()
            &&& v.message_count == message_count(body)
            &&& v.last_activity_ms == latest_activity(body)
            &&& v.header_ms == match header.timestamp {
                Some(t) => spec_parse_iso8601_ms(t@),
                None => None,
            }
            &&& v.mtime_ms == mtime_ms
        },
{
    let n = lines.len();
    let mut h: usize = 0;
    while h < n && matches!(lines[h], SessionLine::Skipped)
        invariant
            h <= n,
            n == lines@.len(),
            forall|j: int| 0 <= j < h ==> #[trigger] lines@[j] is Skipped,
        decreases n - h,
    {
        h = h + 1;
    }
    proof {
        lemma_first_unskipped(lines@, h as int);
    }
    if h == n {
        return None;
    }
    let header = match &lines[h] {
        SessionLine::Entry(e) => e,
        _ => return None,
    };
    if !opt_str_is(&header.entry_type, "session") {
        return None;
    }
    let session_id = match &header.id {
        Some(id) => Some(id.clone()),
        None => return None,
    };
    let cwd = match &header.cwd {
        Some(c) => c,
        None => return None,
    };
    let cwd_chars = chars_of(cwd.as_str());
    if cwd_chars.len() == 0 || cwd_chars[0] != '/' {
        return None;
    }
    assert(is_valid_header(lines@[h as int]));
    let ghost body = session_body(lines@);
    assert(body =~= lines@.subrange(h + 1, n as int));
    let mut name: Option<String> = None;
    let mut first_text: Option<String> = None;
    let mut count: u32 = 0;
    let mut last: Option<u64> = None;
    let mut i: usize = h + 1;
    while i < n
        invariant
            h < i <= n,
            n == lines@.len(),
            n <= u32::MAX,
            body == lines@.subrange(h + 1, n as int),
            body == session_body(lines@),
            opt_view(name) == latest_name(lines@.subrange(h + 1, i as int)),
            opt_view(first_text) == first_user_text(lines@.subrange(h + 1, i as int)),
            count == message_count(lines@.subrange(h + 1, i as int)),
            count <= i,
            last == latest_activity(lines@.subrange(h + 1, i as int)),
            forall|j: int| h + 1 <= j < i ==> !is_fatal(#[trigger] lines@[j]),
        decreases n - i,
    {
        let ghost prev = lines@.subrange(h + 1, i as int);
        let ghost next = lines@.subrange(h + 1, i + 1);
        assert(next.drop_last() =~= prev);
        assert(next.last() == lines@[i as int]);
        match &lines[i] {
            SessionLine::Unreadable => {
                assert(body[i - h - 1] == lines@[i as int]);
                assert(is_fatal(session_body(lines@)[i - h - 1]));
                return None;
            },
            SessionLine::Skipped => {},
            SessionLine::Entry(e) => {
                if opt_str_is(&e.entry_type, "session_info") {
                    name = match &e.name {
                        Some(raw) => {
                            let t = trim_chars(chars_of(raw.as_str()).as_slice());
                            if t.len() > 0 {
                                Some(string_from_chars(t.as_slice()))
                            } else {
                                None
                            }
                        },
                        None => None,
                    };
                    proof {
                        reveal_strlit("session_info");
                        reveal_strlit("message");
                        assert("session_info"@.len() == 12 && "message"@.len() == 7);
                        assert("session_info"@ != "message"@);
                    }
                } else if opt_str_is(&e.entry_type, "message") {
                    count = count + 1;
                    let b = match &e.message {
                        MessageField::Object(b) => b,
                        MessageField::Invalid => {
                            assert(body[i - h - 1] == lines@[i as int]);
                            assert(is_fatal(session_body(lines@)[i - h - 1]));
                            return None;
                        },
                    };
                    let qualifies = (opt_str_is(&b.role, "user") || opt_str_is(&b.role, "assistant"))
                        && !matches!(b.content, ContentField::Absent);
                    if qualifies {
                        let a: Option<u64> = match b.timestamp_ms {
                            Some(ms) => Some(ms),
                            None => match &e.timestamp {
                                Some(t) => parse_iso8601_ms(t.as_str()),
                                None => None,
                            },
                        };
                        last = match (last, a) {
                            (Some(x), Some(y)) => Some(
                                if x >= y {
                                    x
                                } else {
                                    y
                                },
                            ),
                            (Some(x), None) => Some(x),
                            (None, y) => y,
                        };
                        let text = match extract_text(&b.content) {
                            Some(t) => t,
                            None => {
                                assert(body[i - h - 1] == lines@[i as int]);
                                assert(is_fatal(session_body(lines@)[i - h - 1]));
                                return None;
                            },
                        };
                        if first_text.is_none() && opt_str_is(&b.role, "user")
                            && !text.as_str().is_empty() {
                            first_text = Some(text);
                        }
                    }
                }
            },
        }
        i = i + 1;
    }
    assert(lines@.subrange(h + 1, n as int) =~= body);
    proof {
        assert forall|i: int|
            0 <= i < body.len() && latest_name(body) is None && #[trigger] user_text(body[i]) is Some
                && (forall|j: int| 0 <= j < i ==> user_text(#[trigger] body[j]) is None) implies session_title(
            body,
        ) == user_text(body[i]).unwrap() by {
            lemma_title_is_earliest_user_text(body, i);
        }
    }
    let header_ms = match &header.timestamp {
        Some(t) => parse_iso8601_ms(t.as_str()),
        None => None,
    };
    Some(
        ScannedSession {
            file: String::from_str(file),
            session_id,
            cwd: cwd.clone(),
            title: choose_title(name, first_text),
            message_count: count,
            last_activity_ms: last,
            header_ms,
            mtime_ms,
        },
    )
}

} // verus!

verus! {

/// The effective modified time falls back in order: a positive latest
/// activity wins; without one, the header time, whatever the mtime; the
/// mtime only when there is no header time either.
pub proof fn lemma_modified_fallback(s: ScannedSession)
    ensures
        s.last_activity_ms is Some && s.last_activity_ms.unwrap() > 0 ==> s.spec_modified_ms() == s.last_activity_ms.unwrap(),
        !(s.last_activity_ms is Some && s.last_activity_ms.unwrap() > 0) && s.header_ms is Some
            ==> s.spec_modified_ms() == s.header_ms.unwrap(),
        !(s.last_activity_ms is Some && s.last_activity_ms.unwrap() > 0) && s.header_ms is None
            ==> s.spec_modified_ms() == s.mtime_ms,
{
}

proof fn lemma_no_user_text(s: Seq<SessionLine>)
    requires
        forall|j: int| 0 <= j < s.len() ==> user_text(#[trigger] s[j]) is None,
    ensures
        first_user_text(s) is None,
    decreases s.len(),
{
    if s.len() > 0 {
        let d = s.drop_last();
        assert forall|j: int| 0 <= j < d.len() implies user_text(#[trigger] d[j]) is None by {
            assert(d[j] == s[j]);
        }
        lemma_no_user_text(d);
        assert(user_text(s[s.len() - 1]) is None);
    }
}

proof fn lemma_first_user_text_at(s: Seq<SessionLine>, i: int)
    requires
        0 <= i < s.len(),
        user_text(s[i]) is Some,
        forall|j: int| 0 <= j < i ==> user_text(#[trigger] s[j]) is None,
    ensures
        first_user_text(s) == user_text(s[i]),
    decreases s.len(),
{
    let d = s.drop_last();
    if i == s.len() - 1 {
        assert forall|j: int| 0 <= j < d.len() implies user_text(#[trigger] d[j]) is None by {
            assert(d[j] == s[j]);
        }
        lemma_no_user_text(d);
    } else {
        assert(d[i] == s[i]);
        assert forall|j: int| 0 <= j < i implies user_text(#[trigger] d[j]) is None by {
            assert(d[j] == s[j]);
        }
        lemma_first_user_text_at(d, i);
    }
}

/// Without a session name, the title is the text of the earliest user
/// message that has text: later user messages never replace it.
pub proof fn lemma_title_is_earliest_user_text(body: Seq<SessionLine>, i: int)
    requires
        latest_name(body) is None,
        0 <= i < body.len(),
        user_text(body[i]) is Some,
        forall|j: int| 0 <= j < i ==> user_text(#[trigger] body[j]) is None,
    ensures
        session_title(body) == user_text(body[i]).unwrap(),
{
    lemma_first_user_text_at(body, i);
}

/// Without a session name and without any user text, the title is
/// `(no messages)`.
pub proof fn lemma_title_without_text(body: Seq<SessionLine>)
    requires
        latest_name(body) is None,
        forall|j: int| 0 <= j < body.len() ==> user_text(#[trigger] body[j]) is None,
    ensures
        session_title(body) == "(no messages)"@,
{
    lemma_no_user_text(body);
}

} // verus!

verus! {

/// The name a `session_info` line sets: its trimmed name, or nothing when
/// that is missing or blank.
pub open spec fn info_name(l: SessionLine) -> Option<Seq<char>> {
    match l->Entry_0.name {
        Some(n) => if trimmed(n@).len() > 0 {
            Some(trimmed(n@))
        } else {
            None
        },
        None => None,
    }
}

/// The latest `session_info` line decides the name: earlier ones do not
/// matter, and a blank latest name clears it.
pub proof fn lemma_latest_info_wins(body: Seq<SessionLine>, i: int)
    requires
        0 <= i < body.len(),
        has_type(body[i], "session_info"@),
        forall|j: int| i < j < body.len() ==> !has_type(#[trigger] body[j], "session_info"@),
    ensures
        latest_name(body) == info_name(body[i]),
    decreases body.len(),
{
    if i < body.len() - 1 {
        let d = body.drop_last();
        assert(!has_type(body[body.len() - 1], "session_info"@));
        assert(d[i] == body[i]);
        assert forall|j: int| i < j < d.len() implies !has_type(#[trigger] d[j], "session_info"@) by {
            assert(d[j] == body[j]);
        }
        lemma_latest_info_wins(d, i);
    }
}

/// Without any `session_info` line there is no name.
pub proof fn lemma_no_info_no_name(body: Seq<SessionLine>)
    requires
        forall|j: int| 0 <= j < body.len() ==> !has_type(#[trigger] body[j], "session_info"@),
    ensures
        latest_name(body) is None,
    decreases body.len(),
{
    if body.len() > 0 {
        let d = body.drop_last();
        assert(!has_type(body[body.len() - 1], "session_info"@));
        assert forall|j: int| 0 <= j < d.len() implies !has_type(#[trigger] d[j], "session_info"@) by {
            assert(d[j] == body[j]);
        }
        lemma_no_info_no_name(d);
    }
}

/// The latest activity is the largest activity time of any line: no line's
/// activity exceeds it, some line has it, and there is none when no line
/// has an activity time.
pub proof fn lemma_latest_activity_is_max(s: Seq<SessionLine>)
    ensures
        forall|i: int|
            0 <= i < s.len() && (#[trigger] activity(s[i])) is Some ==> latest_activity(s) is Some
                && activity(s[i]).unwrap() <= latest_activity(s).unwrap(),
        latest_activity(s) is Some ==> exists|i: int|
            0 <= i < s.len() && #[trigger] activity(s[i]) == latest_activity(s),
        (forall|i: int| 0 <= i < s.len() ==> (#[trigger] activity(s[i])) is None) ==> latest_activity(
            s,
        ) is None,
    decreases s.len(),
{
    if s.len() > 0 {
        let d = s.drop_last();
        lemma_latest_activity_is_max(d);
        let n = s.len() - 1;
        assert forall|i: int|
            0 <= i < s.len() && (#[trigger] activity(s[i])) is Some implies latest_activity(s) is Some
            && activity(s[i]).unwrap() <= latest_activity(s).unwrap() by {
            if i < n {
                assert(d[i] == s[i]);
                assert(activity(d[i]) is Some);
            }
        }
        if latest_activity(s) is Some {
            if latest_activity(s) == activity(s[n]) {
            } else {
                let i = choose|i: int| 0 <= i < d.len() && #[trigger] activity(d[i]) == latest_activity(d);
                assert(d[i] == s[i]);
                assert(activity(s[i]) == latest_activity(s));
            }
        }
        if forall|i: int| 0 <= i < s.len() ==> (#[trigger] activity(s[i])) is None {
            assert forall|i: int| 0 <= i < d.len() implies (#[trigger] activity(d[i])) is None by {
                assert(d[i] == s[i]);
                assert(activity(s[i]) is None);
            }
            assert(activity(s[n]) is None);
        }
    }
}

} // verus!

verus! {

/// Every `message` entry counts, whatever its role or content: the count is
/// the number of lines of type `message`.
pub proof fn lemma_message_count_counts_messages(s: Seq<SessionLine>)
    ensures
        message_count(s) == s.filter(|l: SessionLine| has_type(l, "message"@)).len(),
    decreases s.len(),
{
    reveal(Seq::filter);
    if s.len() > 0 {
        lemma_message_count_counts_messages(s.drop_last());
    }
}

} // verus!
