//! `dlog hooks`: installs or uninstalls a git `post-commit` hook that seals staging to the
//! new commit.
//!
//! A plain `git commit`, from any tool, fires the hook, which runs `dlog bind` on the new
//! HEAD. Optional, idempotent and reversible: an existing hook is preserved (a marked block
//! is appended), and the seal can never block a commit.
use crate::cli::HookAction;
use crate::text::{
    self, first_at, first_from, first_from_least, has_prefix, has_suffix, lines_of, occurs_at, trimmed,
    trimmed_start,
};
use vstd::prelude::*;

verus! {

/// The line that starts the managed block.
pub const BEGIN: &'static str = "# >>> dlog managed block >>>";

/// The line that ends the managed block.
pub const END: &'static str = "# <<< dlog managed block <<<";

/// What is to be done with the hook file.
#[derive(Debug, PartialEq, Eq)]
pub enum HookWrite {
    /// Leave it as it is.
    Leave,
    /// Write this, and make it executable where that is asked for.
    Write { content: String, executable: bool },
    /// Remove it.
    Remove,
}

/// The value of a `HookWrite`.
pub ghost enum HookWriteView {
    Leave,
    Write { content: Seq<char>, executable: bool },
    Remove,
}

impl View for HookWrite {
    type V = HookWriteView;

    open spec fn view(&self) -> HookWriteView {
        match self {
            HookWrite::Leave => HookWriteView::Leave,
            HookWrite::Write { content, executable } => HookWriteView::Write {
                content: content@,
                executable: *executable,
            },
            HookWrite::Remove => HookWriteView::Remove,
        }
    }
}

/// The line that runs dlog: by absolute path, so that it does not depend on `PATH`, on
/// the store that is baked in, where there is one.
pub open spec fn bind_line(bin: Seq<char>, db: Option<Seq<char>>) -> Seq<char> {
    "\""@ + bin + "\" bind"@ + (match db {
        Some(path) => " --db \""@ + path + "\""@,
        None => Seq::empty(),
    }) + " \"$(git rev-parse HEAD)\" >/dev/null 2>&1 || true"@
}

/// The managed block: its first line, the line that runs dlog, its last line.
pub open spec fn block_of(bin: Seq<char>, db: Option<Seq<char>>) -> Seq<char> {
    BEGIN@ + "\n"@ + bind_line(bin, db) + "\n"@ + END@ + "\n"@
}

/// Writes the managed block.
pub fn managed_block(bin: &str, db: Option<&str>) -> (r: String)
    ensures
        r@ == block_of(bin@, db.deep_view()),
{
    let mut line = text::cat3("\"", bin, "\" bind");
    match db {
        Some(path) => {
            text::push_str(&mut line, text::cat3(" --db \"", path, "\"").as_str());
        },
        None => {
            assert(line@ + Seq::<char>::empty() =~= line@);
        },
    }
    text::push_str(&mut line, " \"$(git rev-parse HEAD)\" >/dev/null 2>&1 || true");
    assert(line@ =~= bind_line(bin@, db.deep_view()));
    let mut out = text::cat3(BEGIN, "\n", line.as_str());
    text::push_str(&mut out, "\n");
    text::push_str(&mut out, END);
    text::push_str(&mut out, "\n");
    out
}

/// What installing does to a hook: nothing where the block is there; otherwise it is
/// appended after a blank line, or a new hook is made of it.
pub open spec fn installed(existing: Option<Seq<char>>, block: Seq<char>) -> (Seq<char>, HookWriteView) {
    match existing {
        Some(content) => if first_at(content, BEGIN@) is Some {
            ("already_installed"@, HookWriteView::Leave)
        } else {
            (
                "appended"@,
                HookWriteView::Write {
                    content: (if has_suffix(content, "\n"@) {
                        content
                    } else {
                        content + "\n"@
                    }) + "\n"@ + block,
                    executable: true,
                },
            )
        },
        None => (
            "installed"@,
            HookWriteView::Write { content: "#!/bin/sh\n"@ + block, executable: true },
        ),
    }
}

/// Decides what installing does to a hook with this content, or to none.
pub fn install(existing: Option<&str>, bin: &str, db: Option<&str>) -> (r: (&'static str, HookWrite))
    ensures
        (r.0@, r.1@) == installed(existing.deep_view(), block_of(bin@, db.deep_view())),
{
    let block = managed_block(bin, db);
    match existing {
        Some(content) => {
            if text::contains(content, BEGIN) {
                return ("already_installed", HookWrite::Leave);
            }
            let mut out = text::owned(content);
            if !text::ends_with(content, "\n") {
                text::push_str(&mut out, "\n");
            }
            text::push_str(&mut out, "\n");
            text::push_str(&mut out, block.as_str());
            ("appended", HookWrite::Write { content: out, executable: true })
        },
        None => (
            "installed",
            HookWrite::Write { content: text::cat("#!/bin/sh\n", block.as_str()), executable: true },
        ),
    }
}

/// Text without the blank lines at its end.
pub open spec fn without_blank_tail(s: Seq<char>) -> Seq<char>
    decreases s.len(),
{
    if has_suffix(s, "\n\n"@) && s.len() > 0 {
        without_blank_tail(s.drop_last())
    } else {
        s
    }
}

/// The content without the managed block, its markers included, and without the blank
/// line before it. The block ends at the first end marker after its begin marker; one
/// that stands before it belongs to what the hook held.
pub open spec fn stripped(content: Seq<char>) -> Option<Seq<char>> {
    match first_at(content, BEGIN@) {
        Some(begin) => match first_from(content, END@, begin + BEGIN@.len()) {
            Some(end) => {
                let rest = content.skip(end + END@.len());
                let tail = if has_prefix(rest, "\n"@) {
                    rest.skip(1)
                } else {
                    rest
                };
                Some(without_blank_tail(content.take(begin)) + tail)
            },
            None => None,
        },
        None => None,
    }
}

/// Removes the managed block, or tells that there is none.
pub fn strip_block(content: &str) -> (r: Option<String>)
    ensures
        r.deep_view() == stripped(content@),
{
    proof {
        first_from_least(content@, BEGIN@, 0);
    }
    let begin: usize = match text::find(content, BEGIN) {
        Some(i) => i,
        None => {
            return None;
        },
    };
    assert(occurs_at(content@, BEGIN@, begin as int));
    let v = text::chars_of(content);
    let total: usize = v.len();
    let body: usize = begin + text::char_count(BEGIN);
    proof {
        first_from_least(content@, END@, body as int);
    }
    let end: usize = match text::find_from(content, END, body) {
        Some(i) => i,
        None => {
            return None;
        },
    };
    assert(occurs_at(content@, END@, end as int));
    let from: usize = end + text::char_count(END);
    let rest = text::string_between(&v, from, total);
    assert(rest@ =~= content@.skip(end + END@.len()));
    let ghost tail = if has_prefix(rest@, "\n"@) {
        rest@.skip(1)
    } else {
        rest@
    };
    let newline = text::starts_with(rest.as_str(), "\n");
    proof {
        reveal_strlit("\n");
        reveal_strlit("\n\n");
    }
    let after: usize = if newline {
        from + 1
    } else {
        from
    };
    let mut upto: usize = begin;
    let ghost head = content@.take(begin as int);
    assert(head.take(begin as int) =~= head);
    loop
        invariant
            upto <= begin <= v.len(),
            v@ == content@,
            head == content@.take(begin as int),
            "\n\n"@.len() == 2,
            "\n\n"@[0] == '\n' && "\n\n"@[1] == '\n',
            without_blank_tail(head) == without_blank_tail(head.take(upto as int)),
        ensures
            upto <= begin,
            without_blank_tail(head) == head.take(upto as int),
        decreases upto,
    {
        let ghost now = head.take(upto as int);
        if upto >= 2 && v[upto - 1] == '\n' && v[upto - 2] == '\n' {
            assert(now.skip(upto - 2) =~= "\n\n"@);
            assert(now.drop_last() =~= head.take(upto - 1));
            upto = upto - 1;
        } else {
            assert(!has_suffix(now, "\n\n"@)) by {
                if has_suffix(now, "\n\n"@) {
                    assert(now.skip(upto - 2)[0] == '\n');
                    assert(now.skip(upto - 2)[1] == '\n');
                }
            }
            break;
        }
    }
    let kept = text::string_between(&v, 0, upto);
    let last = text::string_between(&v, after, total);
    assert(kept@ =~= head.take(upto as int));
    assert(last@ =~= tail);
    Some(text::cat(kept.as_str(), last.as_str()))
}

/// A line that is neither blank nor a shebang.
pub open spec fn is_content(line: Seq<char>) -> bool {
    trimmed(line).len() > 0 && !has_prefix(trimmed_start(line), "#!"@)
}

/// Some line is neither blank nor a shebang.
pub open spec fn has_content(s: Seq<char>) -> bool {
    exists|i: int| 0 <= i < lines_of(s).len() && is_content(#[trigger] lines_of(s)[i])
}

/// What uninstalling does to a hook: the block is taken out, and the file with it where
/// nothing else is left.
pub open spec fn uninstalled(existing: Option<Seq<char>>) -> (Seq<char>, HookWriteView) {
    match existing {
        Some(content) => match stripped(content) {
            Some(rest) => (
                "removed"@,
                if has_content(rest) {
                    HookWriteView::Write { content: rest, executable: false }
                } else {
                    HookWriteView::Remove
                },
            ),
            None => ("not_installed"@, HookWriteView::Leave),
        },
        None => ("not_installed"@, HookWriteView::Leave),
    }
}

/// Whether some line is neither blank nor a shebang.
fn any_content(s: &str) -> (r: bool)
    ensures
        r == has_content(s@),
{
    let lines = text::lines(s);
    let ghost all = lines.deep_view();
    for i in 0..lines.len()
        invariant
            all == lines.deep_view(),
            all == lines_of(s@),
            forall|j: int| 0 <= j < i ==> !is_content(#[trigger] all[j]),
    {
        assert(all[i as int] == lines[i as int]@);
        let line = lines[i].as_str();
        if !text::is_blank(line) && !text::starts_with(text::trim_start(line).as_str(), "#!") {
            return true;
        }
    }
    false
}

/// Decides what uninstalling does to a hook with this content, or to none.
pub fn uninstall(existing: Option<&str>) -> (r: (&'static str, HookWrite))
    ensures
        (r.0@, r.1@) == uninstalled(existing.deep_view()),
{
    match existing {
        Some(content) => match strip_block(content) {
            Some(rest) => if any_content(rest.as_str()) {
                ("removed", HookWrite::Write { content: rest, executable: false })
            } else {
                ("removed", HookWrite::Remove)
            },
            None => ("not_installed", HookWrite::Leave),
        },
        None => ("not_installed", HookWrite::Leave),
    }
}

/// The reply.
#[derive(Debug, PartialEq, Eq)]
pub struct HooksResult {
    pub action: &'static str,
    pub hook: String,
    pub status: &'static str,
}

/// Decides what to do with the hook file at `hook`, and makes the reply.
pub fn run(action: HookAction, hook: &str, existing: Option<&str>, bin: &str, db: Option<&str>) -> (r: (
    HooksResult,
    HookWrite,
))
    ensures
        r.0.action@ == action.word(),
        r.0.hook@ == hook@,
        (r.0.status@, r.1@) == (match action {
            HookAction::Install => installed(existing.deep_view(), block_of(bin@, db.deep_view())),
            HookAction::Uninstall => uninstalled(existing.deep_view()),
        }),
{
    let (status, write) = match action {
        HookAction::Install => install(existing, bin, db),
        HookAction::Uninstall => uninstall(existing),
    };
    (HooksResult { action: action.as_str(), hook: text::owned(hook), status }, write)
}

// ---- Laws -------------------------------------------------------------------

/// A text without line breaks that stands in another stands in one of its lines.
proof fn stands_in_one_line(s: Seq<char>, pat: Seq<char>, i: int, m: int)
    requires
        occurs_at(s, pat, i),
        !pat.contains('\n'),
        0 <= m < s.len(),
        s[m] == '\n',
    ensures
        i + pat.len() <= m || m < i,
{
    if i <= m < i + pat.len() {
        assert(s.subrange(i, i + pat.len())[m - i] == '\n');
        assert(pat.contains(pat[m - i]));
    }
}

/// The first position is the one that no earlier one precedes.
proof fn first_is(s: Seq<char>, pat: Seq<char>, k: int)
    requires
        occurs_at(s, pat, k),
        forall|j: int| 0 <= j < k ==> !occurs_at(s, pat, j),
    ensures
        first_at(s, pat) == Some(k),
{
    first_from_least(s, pat, 0);
}

/// The markers are two different lines of the same length.
proof fn markers()
    ensures
        BEGIN@.len() == END@.len(),
        BEGIN@.len() > 0,
        BEGIN@ != END@,
        !BEGIN@.contains('\n'),
        !END@.contains('\n'),
{
    reveal_strlit("# >>> dlog managed block >>>");
    reveal_strlit("# <<< dlog managed block <<<");
    assert(BEGIN@[2] == '>');
    assert(END@[2] == '<');
    assert forall|i: int| 0 <= i < BEGIN@.len() implies BEGIN@[i] != '\n' by {}
    assert forall|i: int| 0 <= i < END@.len() implies END@[i] != '\n' by {}
}

/// Installing twice is installing once: the second time nothing is written.
pub proof fn install_is_idempotent(existing: Option<Seq<char>>, block: Seq<char>, again: Seq<char>)
    requires
        exists|bin: Seq<char>, db: Option<Seq<char>>| block == #[trigger] block_of(bin, db),
        installed(existing, block).1 matches HookWriteView::Write { content, .. },
    ensures
        installed(Some(installed(existing, block).1->Write_content), again) == (
            "already_installed"@,
            HookWriteView::Leave,
        ),
{
    let content = installed(existing, block).1->Write_content;
    let lead = match existing {
        Some(old) => (if has_suffix(old, "\n"@) {
            old
        } else {
            old + "\n"@
        }) + "\n"@,
        None => "#!/bin/sh\n"@,
    };
    let (bin, db) = choose|bin: Seq<char>, db: Option<Seq<char>>| block == #[trigger] block_of(bin, db);
    let rest = "\n"@ + bind_line(bin, db) + "\n"@ + END@ + "\n"@;
    assert(block =~= BEGIN@ + rest);
    assert(content =~= lead + block);
    let at = lead.len() as int;
    assert(content.subrange(at, at + BEGIN@.len()) =~= BEGIN@);
    assert(occurs_at(content, BEGIN@, lead.len() as int));
    first_from_least(content, BEGIN@, 0);
}

/// Where the markers stand after an install.
proof fn markers_in_installed(lead: Seq<char>, bin: Seq<char>, db: Option<Seq<char>>)
    requires
        lead.len() > 0,
        lead.last() == '\n',
        first_at(lead, BEGIN@) is None,
        first_at(bind_line(bin, db), END@) is None,
    ensures
        ({
            let content = lead + block_of(bin, db);
            &&& first_at(content, BEGIN@) == Some(lead.len() as int)
            &&& first_from(content, END@, (lead.len() + BEGIN@.len()) as int) == Some(
                content.len() - END@.len() - 1,
            )
        }),
{
    reveal_strlit("\n");
    markers();
    let line = bind_line(bin, db);
    let content = lead + block_of(bin, db);
    let b = lead.len() as int;
    let first_end = b + BEGIN@.len();
    let second_end = first_end + 1 + line.len();
    let e = second_end + 1;
    assert(content.len() == e + END@.len() + 1);
    assert(content.subrange(b, b + BEGIN@.len()) =~= BEGIN@);
    assert(content.subrange(e, e + END@.len()) =~= END@);
    assert(content[b - 1] == '\n');
    assert(content[first_end] == '\n');
    assert(content[second_end] == '\n');
    first_from_least(lead, BEGIN@, 0);
    first_from_least(line, END@, 0);
    assert forall|j: int| 0 <= j < b implies !occurs_at(content, BEGIN@, j) by {
        if occurs_at(content, BEGIN@, j) {
            stands_in_one_line(content, BEGIN@, j, b - 1);
            assert(lead.subrange(j, j + BEGIN@.len()) =~= content.subrange(j, j + BEGIN@.len()));
            assert(occurs_at(lead, BEGIN@, j));
        }
    }
    first_is(content, BEGIN@, b);
    assert forall|j: int| first_end <= j < e implies !occurs_at(content, END@, j) by {
        if occurs_at(content, END@, j) {
            stands_in_one_line(content, END@, j, first_end);
            stands_in_one_line(content, END@, j, second_end);
            let k = j - first_end - 1;
            assert(line.subrange(k, k + END@.len()) =~= content.subrange(j, j + END@.len()));
            assert(occurs_at(line, END@, k));
        }
    }
    assert(occurs_at(content, END@, e));
    first_from_least(content, END@, first_end);
}

/// Uninstalling gives back the hook that was there, and once more changes nothing: one
/// that ends in a single line break, and in which the begin marker does not occur. One
/// that says nothing but its shebang is removed.
pub proof fn uninstall_restores(content: Seq<char>, bin: Seq<char>, db: Option<Seq<char>>)
    requires
        has_suffix(content, "\n"@),
        !has_suffix(content, "\n\n"@),
        first_at(content, BEGIN@) is None,
        first_at(bind_line(bin, db), END@) is None,
    ensures
        installed(Some(content), block_of(bin, db)).0 == "appended"@,
        installed(Some(content), block_of(bin, db)).1 is Write,
        stripped(installed(Some(content), block_of(bin, db)).1->Write_content) == Some(content),
        uninstalled(Some(installed(Some(content), block_of(bin, db)).1->Write_content)) == (
            "removed"@,
            if has_content(content) {
                HookWriteView::Write { content, executable: false }
            } else {
                HookWriteView::Remove
            },
        ),
        uninstalled(Some(content)) == ("not_installed"@, HookWriteView::Leave),
{
    reveal_strlit("\n");
    reveal_strlit("\n\n");
    markers();
    let lead = content + "\n"@;
    let whole = installed(Some(content), block_of(bin, db)).1->Write_content;
    assert(whole == lead + block_of(bin, db));
    absent_with_newline(content, BEGIN@);
    assert(lead.last() == '\n');
    markers_in_installed(lead, bin, db);
    let end = whole.len() - END@.len() - 1;
    let rest = whole.skip(end + END@.len());
    assert(rest =~= "\n"@);
    assert(rest.take(1) =~= "\n"@);
    assert(rest.skip(1) =~= Seq::empty());
    assert(whole.take(lead.len() as int) =~= lead);
    assert(content.skip(content.len() - 1)[0] == '\n');
    assert(lead.skip(lead.len() - 2) =~= "\n\n"@);
    assert(lead.drop_last() =~= content);
    assert(without_blank_tail(lead) == without_blank_tail(content));
    assert(without_blank_tail(content) == content);
    assert(content + Seq::<char>::empty() =~= content);
}

/// A line break more makes no marker.
proof fn absent_with_newline(content: Seq<char>, pat: Seq<char>)
    requires
        first_at(content, pat) is None,
        !pat.contains('\n'),
        pat.len() > 0,
    ensures
        first_at(content + "\n"@, pat) is None,
{
    reveal_strlit("\n");
    let lead = content + "\n"@;
    first_from_least(content, pat, 0);
    first_from_least(lead, pat, 0);
    if first_at(lead, pat) is Some {
        let k = first_at(lead, pat)->0;
        assert(lead[content.len() as int] == '\n');
        stands_in_one_line(lead, pat, k, content.len() as int);
        assert(content.subrange(k, k + pat.len()) =~= lead.subrange(k, k + pat.len()));
        assert(occurs_at(content, pat, k));
    }
}

/// A hook that dlog made is removed altogether.
pub proof fn uninstall_removes_own_hook(bin: Seq<char>, db: Option<Seq<char>>)
    requires
        first_at(bind_line(bin, db), END@) is None,
    ensures
        uninstalled(Some(installed(None, block_of(bin, db)).1->Write_content)) == (
            "removed"@,
            HookWriteView::Remove,
        ),
{
    reveal_strlit("\n");
    reveal_strlit("\n\n");
    reveal_strlit("#!/bin/sh\n");
    reveal_strlit("#!");
    markers();
    let lead = "#!/bin/sh\n"@;
    let whole = lead + block_of(bin, db);
    first_from_least(lead, BEGIN@, 0);
    reveal_strlit("# >>> dlog managed block >>>");
    reveal_strlit("# <<< dlog managed block <<<");
    assert(BEGIN@.len() > lead.len());
    markers_in_installed(lead, bin, db);
    let end = whole.len() - END@.len() - 1;
    let rest = whole.skip(end + END@.len());
    assert(rest =~= "\n"@);
    assert(rest.take(1) =~= "\n"@);
    assert(rest.skip(1) =~= Seq::empty());
    assert(whole.take(lead.len() as int) =~= lead);
    assert(lead.skip(lead.len() - 2)[0] == 'h');
    assert(!has_suffix(lead, "\n\n"@)) by {
        if has_suffix(lead, "\n\n"@) {
            assert(lead.skip(lead.len() - 2)[0] == "\n\n"@[0]);
        }
    }
    assert(without_blank_tail(lead) == lead);
    assert(lead + Seq::<char>::empty() =~= lead);
    assert(stripped(whole) == Some(lead));
    // Its one line is the shebang.
    let line = lead.take(9);
    text::until_bound(lead, '\n');
    assert(lead[9] == '\n');
    assert(text::until(lead, '\n') == 9);
    assert(lead.skip(10) =~= Seq::empty());
    assert(lines_of(lead.skip(10)) =~= Seq::empty());
    assert(text::chomped(line) == line);
    assert(lines_of(lead) =~= seq![line]);
    assert(!text::is_space(line[0]));
    assert(trimmed_start(line) == line);
    assert(line.take(2) =~= "#!"@);
    assert(!is_content(line));
    assert(!has_content(lead));
}

/// The line of the hook runs the program that was named, on the store that was named where
/// one was, for the new commit; it says nothing and never fails.
pub proof fn hooks_run_dlog(bin: Seq<char>, db: Seq<char>)
    ensures
        bind_line(bin, None) == "\""@ + bin + "\" bind \"$(git rev-parse HEAD)\" >/dev/null 2>&1 || true"@,
        bind_line(bin, Some(db)) == "\""@ + bin + "\" bind --db \""@ + db
            + "\" \"$(git rev-parse HEAD)\" >/dev/null 2>&1 || true"@,
{
    reveal_strlit("\"");
    reveal_strlit("\" bind");
    reveal_strlit(" --db \"");
    reveal_strlit(" \"$(git rev-parse HEAD)\" >/dev/null 2>&1 || true");
    reveal_strlit("\" bind \"$(git rev-parse HEAD)\" >/dev/null 2>&1 || true");
    reveal_strlit("\" bind --db \"");
    reveal_strlit("\" \"$(git rev-parse HEAD)\" >/dev/null 2>&1 || true");
    assert(bind_line(bin, None) =~= "\""@ + bin + "\" bind \"$(git rev-parse HEAD)\" >/dev/null 2>&1 || true"@);
    assert(bind_line(bin, Some(db)) =~= "\""@ + bin + "\" bind --db \""@ + db
        + "\" \"$(git rev-parse HEAD)\" >/dev/null 2>&1 || true"@);
}

/// Installing keeps a hook that was there, and adds the line between the two markers after
/// it; a hook that was not there becomes a shell script. What is written can be run.
pub proof fn installing_keeps_the_hook(content: Seq<char>, bin: Seq<char>, db: Option<Seq<char>>)
    ensures
        first_at(content, BEGIN@) is None ==> ({
            let (status, write) = installed(Some(content), block_of(bin, db));
            &&& status == "appended"@
            &&& write matches HookWriteView::Write { content: now, executable } && executable && exists|
                gap: Seq<char>,
            |
                now == #[trigger] (content + gap + BEGIN@ + seq!['\n'] + bind_line(bin, db) + seq!['\n'] + END@
                    + seq!['\n']) && 1 <= gap.len() <= 2 && forall|i: int|
                    0 <= i < gap.len() ==> #[trigger] gap[i] == '\n'
        }),
        first_at(content, BEGIN@) is Some ==> installed(Some(content), block_of(bin, db)) == (
            "already_installed"@,
            HookWriteView::Leave,
        ),
        installed(None, block_of(bin, db)).0 == "installed"@,
        installed(None, block_of(bin, db)).1 == (HookWriteView::Write {
            content: "#!/bin/sh\n"@ + BEGIN@ + seq!['\n'] + bind_line(bin, db) + seq!['\n'] + END@ + seq![
                '\n',
            ],
            executable: true,
        }),
{
    reveal_strlit("\n");
    assert("\n"@ =~= seq!['\n']);
    let tail = BEGIN@ + seq!['\n'] + bind_line(bin, db) + seq!['\n'] + END@ + seq!['\n'];
    assert(block_of(bin, db) =~= tail);
    if first_at(content, BEGIN@) is None {
        let now = installed(Some(content), block_of(bin, db)).1->Write_content;
        if has_suffix(content, "\n"@) {
            let gap = seq!['\n'];
            assert(now =~= content + gap + BEGIN@ + seq!['\n'] + bind_line(bin, db) + seq!['\n'] + END@ + seq![
                '\n',
            ]);
        } else {
            let gap = seq!['\n', '\n'];
            assert(now =~= content + gap + BEGIN@ + seq!['\n'] + bind_line(bin, db) + seq!['\n'] + END@ + seq![
                '\n',
            ]);
        }
    }
    assert("#!/bin/sh\n"@ + block_of(bin, db) =~= "#!/bin/sh\n"@ + BEGIN@ + seq!['\n'] + bind_line(bin, db)
        + seq!['\n'] + END@ + seq!['\n']);
}

/// A hook with a line that is neither blank nor a shebang is kept; one that has none is not.
pub proof fn commands_are_content(line: Seq<char>, rest: Seq<char>)
    requires
        !line.contains('\n'),
        line.len() > 0,
        line.last() != '\r',
    ensures
        !text::is_space(line[0]) && !text::is_space(line.last()) && line[0] != '#' ==> has_content(
            line.push('\n') + rest,
        ),
        has_content(rest) ==> has_content(line.push('\n') + rest),
        !has_content(Seq::empty()),
{
    reveal_strlit("#!");
    text::facts::lines_end_at_breaks(line, rest);
    let s = line.push('\n') + rest;
    assert(lines_of(s)[0] == line);
    if !text::is_space(line[0]) && !text::is_space(line.last()) && line[0] != '#' {
        assert(trimmed_start(line) == line);
        assert(trimmed(line) == line);
        if has_prefix(line, "#!"@) {
            assert(line.take(2)[0] == line[0]);
            assert("#!"@[0] == '#');
        }
        assert(is_content(lines_of(s)[0]));
    }
    if has_content(rest) {
        let i = choose|i: int| 0 <= i < lines_of(rest).len() && is_content(#[trigger] lines_of(rest)[i]);
        assert(lines_of(s)[i + 1] == lines_of(rest)[i]);
    }
}

} // verus!
