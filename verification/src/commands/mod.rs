//! What each subcommand does with the store and with what it was given. Reading
//! files, running git and printing are left to the caller.
use crate::output::{ErrorBodyView, ErrorEnvelope, ErrorEnvelopeView};
use crate::paths;
use crate::store::{OpenError, StoreError};
use crate::text;
use crate::text::facts::{
    numbers_read_back, only_digits_are_numbers, parted_at_first, parted_at_mark, trim_takes_spaces,
};
use vstd::prelude::*;

pub mod bind;
pub mod commit;
pub mod compact;
pub mod context;
pub mod export;
pub mod hooks;
pub mod import;
pub mod init;
pub mod invariants;
pub mod record;
pub mod search;
pub mod share;
pub mod show;
pub mod status;
pub mod task;
pub mod trace;
pub mod why;

verus! {

/// The span that a line spec names: `N`, or `START-END`.
pub open spec fn line_span_of(s: Seq<char>) -> Option<(u32, u32)> {
    match text::parted(s, "-"@) {
        Some((a, b)) => match (text::u32_value(text::trimmed(a)), text::u32_value(text::trimmed(b))) {
            (Some(start), Some(end)) => Some((start, end)),
            _ => None,
        },
        None => match text::u32_value(text::trimmed(s)) {
            Some(n) => Some((n, n)),
            None => None,
        },
    }
}

/// Reads a line spec into a 1-based inclusive span.
pub fn parse_line_spec(s: &str) -> (r: Option<(u32, u32)>)
    ensures
        r == line_span_of(s@),
{
    match text::split_once(s, "-") {
        Some((a, b)) => {
            let start: Option<u32> = text::parse_u32(text::trim(a.as_str()).as_str());
            let end: Option<u32> = text::parse_u32(text::trim(b.as_str()).as_str());
            match (start, end) {
                (Some(start), Some(end)) => Some((start, end)),
                _ => None,
            }
        },
        None => match text::parse_u32(text::trim(s).as_str()) {
            Some(n) => Some((n, n)),
            None => None,
        },
    }
}

/// A command failure, carrying a stable machine `code` and a human message.
#[derive(Debug, PartialEq, Eq)]
pub struct AppError {
    pub code: String,
    pub message: String,
}

/// The value of an `AppError`.
pub ghost struct AppErrorView {
    pub code: Seq<char>,
    pub message: Seq<char>,
}

impl DeepView for AppError {
    type V = AppErrorView;

    open spec fn deep_view(&self) -> AppErrorView {
        AppErrorView {
            code: self.code@,
            message: self.message@,
        }
    }
}

impl View for AppError {
    type V = AppErrorView;

    open spec fn view(&self) -> AppErrorView {
        self.deep_view()
    }
}

impl Clone for AppError {
    fn clone(&self) -> (r: Self)
        ensures
            r@ == self@,
    {
        AppError {
            code: self.code.clone(),
            message: self.message.clone(),
        }
    }
}

/// A failure with this code and message.
pub open spec fn failure(code: Seq<char>, message: Seq<char>) -> AppErrorView {
    AppErrorView { code, message }
}

impl AppError {
    /// A failure with this code and message.
    pub fn new(code: &str, message: &str) -> (r: Self)
        ensures
            r@ == failure(code@, message@),
    {
        AppError { code: text::owned(code), message: text::owned(message) }
    }

    /// Uniform stub error for commands not yet implemented.
    pub fn not_implemented(command: &str, issue: u32) -> (r: Self)
        ensures
            r@ == failure(
                "not_implemented"@,
                "`dlog "@ + command@ + "` is not implemented yet (tracked in #"@ + text::decimal_of(
                    issue as nat,
                ) + ")"@,
            ),
    {
        let mut message = text::cat3("`dlog ", command, "` is not implemented yet (tracked in #");
        text::push_str(&mut message, text::decimal(issue as u64).as_str());
        text::push_str(&mut message, ")");
        AppError::new("not_implemented", message.as_str())
    }

    /// The failure document.
    pub fn into_envelope(self) -> (r: ErrorEnvelope)
        ensures
            r@ == (ErrorEnvelopeView {
                error: ErrorBodyView { code: self@.code, message: self@.message },
            }),
    {
        ErrorEnvelope::new(self.code.as_str(), self.message.as_str())
    }

    /// A refused write.
    pub fn from_store(e: StoreError) -> (r: Self)
        ensures
            r@ == failure("store_error"@, e.words()),
    {
        AppError::new("store_error", e.message().as_str())
    }

    /// A store that could not be opened. One from a newer dlog is a condition that an
    /// agent can branch on.
    pub fn from_open(e: &OpenError) -> (r: Self)
        ensures
            r@ == failure(
                if e is SchemaTooNew {
                    "schema_too_new"@
                } else {
                    "store_error"@
                },
                e.words(),
            ),
    {
        match e {
            OpenError::SchemaTooNew { .. } => AppError::new("schema_too_new", e.message().as_str()),
            OpenError::Sqlite(_) => AppError::new("store_error", e.message().as_str()),
        }
    }
}

/// The directory name that marks, and holds, a dlog workspace.
pub const DLOG_DIR: &'static str = ".dlog";

/// How the workspace root was determined.
#[derive(Debug, Clone, Copy, PartialEq, Eq, Structural)]
pub enum RootSource {
    /// An ancestor declared itself with a `.dlog/` directory.
    Dlog,
    /// No `.dlog/`, but an ancestor is a git repository.
    Git,
    /// Neither marker exists; the current directory is the root.
    Cwd,
}

impl RootSource {
    /// The name on the wire.
    pub open spec fn name(self) -> Seq<char> {
        match self {
            RootSource::Dlog => "dlog"@,
            RootSource::Git => "git"@,
            RootSource::Cwd => "cwd"@,
        }
    }

    /// The name on the wire.
    pub fn as_str(self) -> (r: &'static str)
        ensures
            r@ == self.name(),
    {
        match self {
            RootSource::Dlog => "dlog",
            RootSource::Git => "git",
            RootSource::Cwd => "cwd",
        }
    }
}

/// The first position from `i` on that is set.
pub open spec fn first_set(flags: Seq<bool>, i: int) -> Option<int>
    decreases flags.len() - i,
{
    if i >= flags.len() {
        None
    } else if flags[i] {
        Some(i)
    } else {
        first_set(flags, i + 1)
    }
}

/// Finds the first position from `from` on that is set.
pub fn position_set(flags: &Vec<bool>, from: usize) -> (r: Option<usize>)
    ensures
        match r {
            Some(i) => first_set(flags@, from as int) == Some(i as int) && from <= i < flags.len(),
            None => first_set(flags@, from as int) is None,
        },
{
    let mut i: usize = from;
    while i < flags.len()
        invariant
            from <= i,
            first_set(flags@, from as int) == first_set(flags@, i as int),
        decreases flags.len() - i,
    {
        if flags[i] {
            return Some(i);
        }
        i = i + 1;
    }
    None
}

/// The workspace root above `from`, given which of its ancestors hold a `.dlog/`
/// directory and which a `.git`: the nearest with a `.dlog/`, else the nearest with a
/// `.git`, else `from`. The whole chain is searched for `.dlog/` before `.git` counts.
pub open spec fn root_above(from: Seq<char>, dlog: Seq<bool>, git: Seq<bool>) -> (Seq<char>, RootSource) {
    match first_set(dlog, 0) {
        Some(i) => (paths::ancestors_of(from)[i], RootSource::Dlog),
        None => match first_set(git, 0) {
            Some(i) => (paths::ancestors_of(from)[i], RootSource::Git),
            None => (from, RootSource::Cwd),
        },
    }
}

/// Picks the workspace root above `from`. `dlog` and `git` tell, for each of
/// [`paths::ancestors`] of `from`, whether it holds that marker.
pub fn discover_root(from: &str, dlog: &Vec<bool>, git: &Vec<bool>) -> (r: (String, RootSource))
    requires
        dlog@.len() <= paths::ancestors_of(from@).len(),
        git@.len() <= paths::ancestors_of(from@).len(),
    ensures
        (r.0@, r.1) == root_above(from@, dlog@, git@),
{
    let dirs = paths::ancestors(from);
    match position_set(dlog, 0) {
        Some(i) => (dirs[i].clone(), RootSource::Dlog),
        None => match position_set(git, 0) {
            Some(i) => (dirs[i].clone(), RootSource::Git),
            None => (text::owned(from), RootSource::Cwd),
        },
    }
}

/// The workspace a command operates in: where the project root is, which store
/// answers, and how the root was found.
#[derive(Debug, PartialEq, Eq)]
pub struct Workspace {
    pub root: String,
    pub db: String,
    pub root_source: RootSource,
}

impl Workspace {
    /// A workspace at an explicit root. The store is `.dlog/dlog.db` under it, unless
    /// `db` names another.
    pub fn rooted(root: &str, root_source: RootSource, db: Option<&str>) -> (r: Self)
        ensures
            r.root@ == root@,
            r.root_source == root_source,
            r.db@ == (match db {
                Some(path) => path@,
                None => paths::joined_path(paths::joined_path(root@, DLOG_DIR@), "dlog.db"@),
            }),
    {
        let db = match db {
            Some(path) => text::owned(path),
            None => paths::join_path(paths::join_path(root, DLOG_DIR).as_str(), "dlog.db"),
        };
        Workspace { root: text::owned(root), db, root_source }
    }

    /// The stored spelling of a caller-supplied path: relative to the root and
    /// `/`-separated, so the same file gets the same anchor from any directory.
    pub fn relativize(&self, cwd: &str, path: &str) -> (r: String)
        ensures
            r@ == paths::relative_to(self.root@, cwd@, path@),
    {
        paths::relativize(self.root.as_str(), cwd, path)
    }

    /// Turns a stored path back into one that can be read.
    pub fn resolve_path(&self, stored: &str) -> (r: String)
        ensures
            r@ == paths::readable(self.root@, stored@),
    {
        paths::resolve_path(self.root.as_str(), stored)
    }
}

/// The commit that `git rev-parse HEAD` printed, where it printed one.
pub fn clean_sha(printed: &str) -> (r: Option<String>)
    ensures
        r.deep_view() == (if text::trimmed(printed@).len() == 0 {
            None
        } else {
            Some(text::trimmed(printed@))
        }),
{
    let sha = text::trim(printed);
    if text::char_count(sha.as_str()) == 0 {
        None
    } else {
        Some(sha)
    }
}

// ---- Laws -------------------------------------------------------------------

/// A number names its line, and two numbers with a `-` between them name the lines from the
/// first to the second. Spaces around them do not count.
pub proof fn line_specs_read(a: u32, b: u32)
    ensures
        line_span_of(text::decimal_of(a as nat)) == Some((a, a)),
        line_span_of(text::decimal_of(a as nat) + seq!['-'] + text::decimal_of(b as nat)) == Some((a, b)),
{
    reveal_strlit("-");
    assert("-"@ =~= seq!['-']);
    let s = text::decimal_of(a as nat);
    let t = text::decimal_of(b as nat);
    numbers_read_back(a);
    numbers_read_back(b);
    assert(!s.contains('-'));
    parted_at_mark(s, '-', t);
}

/// What names lines holds digits, and besides them at most a `-`, plus signs and spaces.
pub proof fn only_numbers_are_lines(s: Seq<char>, i: int)
    requires
        line_span_of(s) is Some,
        0 <= i < s.len(),
    ensures
        ('0' <= s[i] && s[i] <= '9') || s[i] == '-' || s[i] == '+' || text::is_space(s[i]),
{
    reveal_strlit("-");
    parted_at_first(s, "-"@);
    match text::parted(s, "-"@) {
        Some((a, b)) => {
            if i < a.len() {
                assert(s[i] == a[i]);
                number_in_spaces(a, i);
            } else if i > a.len() {
                assert(s[i] == b[i - a.len() - 1]);
                number_in_spaces(b, i - a.len() - 1);
            }
        },
        None => {
            number_in_spaces(s, i);
        },
    }
}

proof fn number_in_spaces(s: Seq<char>, i: int)
    requires
        text::u32_value(text::trimmed(s)) is Some,
        0 <= i < s.len(),
    ensures
        ('0' <= s[i] && s[i] <= '9') || s[i] == '+' || text::is_space(s[i]),
{
    let body = text::trimmed(s);
    let (head, tail) = trim_takes_spaces(s);
    if i < head.len() {
        assert(s[i] == head[i]);
    } else if i < head.len() + body.len() {
        assert(s[i] == body[i - head.len()]);
        only_digits_are_numbers(body, i - head.len());
    } else {
        assert(s[i] == tail[i - head.len() - body.len()]);
    }
}

/// The root is the nearest directory above with a `.dlog/`; where there is none anywhere,
/// the nearest with a `.git`; where there is neither, the directory itself.
pub proof fn root_is_nearest(from: Seq<char>, dlog: Seq<bool>, git: Seq<bool>, i: int)
    ensures
        0 <= i < dlog.len() && dlog[i] && (forall|j: int| 0 <= j < i ==> !dlog[j]) ==> root_above(
            from,
            dlog,
            git,
        ) == (paths::ancestors_of(from)[i], RootSource::Dlog),
        (forall|j: int| 0 <= j < dlog.len() ==> !dlog[j]) && 0 <= i < git.len() && git[i] && (forall|j: int|
            0 <= j < i ==> !git[j]) ==> root_above(from, dlog, git) == (
            paths::ancestors_of(from)[i],
            RootSource::Git,
        ),
        (forall|j: int| 0 <= j < dlog.len() ==> !dlog[j]) && (forall|j: int| 0 <= j < git.len() ==> !git[j])
            ==> root_above(from, dlog, git) == (from, RootSource::Cwd),
{
    first_set_is_least(dlog, 0);
    first_set_is_least(git, 0);
}

/// The first set position is set, and none before it is.
pub proof fn first_set_is_least(flags: Seq<bool>, from: int)
    requires
        0 <= from,
    ensures
        match first_set(flags, from) {
            Some(i) => from <= i < flags.len() && flags[i] && forall|j: int| from <= j < i ==> !flags[j],
            None => forall|j: int| from <= j < flags.len() ==> !flags[j],
        },
    decreases flags.len() - from,
{
    if from < flags.len() && !flags[from] {
        first_set_is_least(flags, from + 1);
    }
}

/// A failure carries its code and its message.
pub proof fn failures_carry_words(code: Seq<char>, message: Seq<char>)
    ensures
        failure(code, message).code == code,
        failure(code, message).message == message,
{
}

} // verus!
