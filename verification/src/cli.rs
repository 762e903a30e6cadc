//! The command-line surface, as values: what each subcommand is given.
use vstd::prelude::*;

verus! {

/// A parsed command line.
#[derive(Debug)]
pub struct Cli {
    pub command: Command,
}

/// The subcommands.
#[derive(Debug)]
pub enum Command {
    Init(InitArgs),
    Task(TaskArgs),
    Record(Box<RecordArgs>),
    Bind(BindArgs),
    Commit(CommitArgs),
    Hooks(HooksArgs),
    Why(WhyArgs),
    Context(ContextArgs),
    Trace(TraceArgs),
    Show(ShowArgs),
    Search(SearchArgs),
    Invariants(InvariantsArgs),
    Status(StatusArgs),
    Export(ExportArgs),
    Import(ImportArgs),
}

impl Command {
    /// The name of each subcommand.
    pub open spec fn word(self) -> Seq<char> {
        match self {
            Command::Init(_) => "init"@,
            Command::Task(_) => "task"@,
            Command::Record(_) => "record"@,
            Command::Bind(_) => "bind"@,
            Command::Commit(_) => "commit"@,
            Command::Hooks(_) => "hooks"@,
            Command::Why(_) => "why"@,
            Command::Context(_) => "context"@,
            Command::Trace(_) => "trace"@,
            Command::Show(_) => "show"@,
            Command::Search(_) => "search"@,
            Command::Invariants(_) => "invariants"@,
            Command::Status(_) => "status"@,
            Command::Export(_) => "export"@,
            Command::Import(_) => "import"@,
        }
    }

    /// The subcommand name, as typed.
    pub fn name(&self) -> (r: &'static str)
        ensures
            r@ == self.word(),
    {
        match self {
            Command::Init(_) => "init",
            Command::Task(_) => "task",
            Command::Record(_) => "record",
            Command::Bind(_) => "bind",
            Command::Commit(_) => "commit",
            Command::Hooks(_) => "hooks",
            Command::Why(_) => "why",
            Command::Context(_) => "context",
            Command::Trace(_) => "trace",
            Command::Show(_) => "show",
            Command::Search(_) => "search",
            Command::Invariants(_) => "invariants",
            Command::Status(_) => "status",
            Command::Export(_) => "export",
            Command::Import(_) => "import",
        }
    }
}

/// Arguments of `dlog init`.
#[derive(Debug)]
pub struct InitArgs {
    pub db: Option<String>,
}

/// Arguments of `dlog task`.
#[derive(Debug)]
pub struct TaskArgs {
    pub command: TaskCommand,
    pub db: Option<String>,
}

/// What to do with a task.
#[derive(Debug)]
pub enum TaskCommand {
    /// Start a task.
    Start { parent: Option<String>, instruction: Option<String> },
    /// List tasks: the open ones, or all of them; those under one parent.
    List { all: bool, parent: Option<String> },
    /// Finish a task, sealing its decisions.
    Done { id: String },
}

/// Arguments of `dlog record`.
#[derive(Debug)]
pub struct RecordArgs {
    /// Why the decision was made; `-` reads it from stdin.
    pub rationale: String,
    /// Anchor files, each optionally with a line or a range: `FILE[:LINES]`.
    pub files: Vec<String>,
    /// Also anchor to every file that git reports as changed.
    pub changed: bool,
    pub agent_role: String,
    pub agent_model: String,
    pub agent_session: Option<String>,
    /// The human behind the agent.
    pub author: Option<String>,
    pub conversation_id: Option<String>,
    pub task_id: Option<String>,
    /// The instruction of the task, set where the task is first named.
    pub instruction: Option<String>,
    /// Rejected alternatives: `APPROACH :: REASON`.
    pub rejected: Vec<String>,
    pub caused_by: Vec<String>,
    pub supersedes: Option<String>,
    /// Invariants that this decision declares.
    pub declares_invariant: Vec<String>,
    pub invariant_scope: Option<String>,
    pub db: Option<String>,
}

/// Arguments of `dlog why`.
#[derive(Debug)]
pub struct WhyArgs {
    /// `FILE:LINE` or a symbol path.
    pub target: String,
    pub include_superseded: bool,
    pub limit: usize,
    /// Characters of output to aim for; 0 means unbounded.
    pub budget: usize,
    pub db: Option<String>,
}

/// Arguments of `dlog context`.
#[derive(Debug)]
pub struct ContextArgs {
    pub path: String,
    /// Group by file, whatever the path is.
    pub rollup: bool,
    /// List decisions, whatever the path is.
    pub flat: bool,
    pub no_invariants: bool,
    pub include_superseded: bool,
    pub limit: usize,
    pub budget: usize,
    pub db: Option<String>,
}

/// Arguments of `dlog trace`.
#[derive(Debug)]
pub struct TraceArgs {
    pub id: String,
    /// How many steps to walk in each direction.
    pub depth: usize,
    pub budget: usize,
    pub db: Option<String>,
}

/// Arguments of `dlog show`.
#[derive(Debug)]
pub struct ShowArgs {
    pub ids: Vec<String>,
    pub db: Option<String>,
}

/// Arguments of `dlog status`.
#[derive(Debug)]
pub struct StatusArgs {
    pub db: Option<String>,
}

/// Arguments of `dlog search`.
#[derive(Debug)]
pub struct SearchArgs {
    pub text: String,
    pub include_superseded: bool,
    pub limit: usize,
    pub budget: usize,
    pub db: Option<String>,
}

/// Arguments of `dlog invariants`.
#[derive(Debug)]
pub struct InvariantsArgs {
    pub scope: Option<String>,
    pub db: Option<String>,
}

/// What to do with the post-commit hook.
#[derive(Debug, Clone, Copy, PartialEq, Eq, Structural)]
pub enum HookAction {
    Install,
    Uninstall,
}

impl HookAction {
    /// The name of each action.
    pub open spec fn word(self) -> Seq<char> {
        match self {
            HookAction::Install => "install"@,
            HookAction::Uninstall => "uninstall"@,
        }
    }

    /// The action name, as typed.
    pub fn as_str(self) -> (r: &'static str)
        ensures
            r@ == self.word(),
    {
        match self {
            HookAction::Install => "install",
            HookAction::Uninstall => "uninstall",
        }
    }
}

/// Arguments of `dlog hooks`.
#[derive(Debug)]
pub struct HooksArgs {
    pub action: HookAction,
    /// The store to bake into the hook.
    pub db: Option<String>,
}

/// Arguments of `dlog bind`.
#[derive(Debug)]
pub struct BindArgs {
    /// The commit to bind to.
    pub sha: Option<String>,
    /// Seal without a commit.
    pub none: bool,
    /// Only these decisions; every staged one where none is named.
    pub decisions: Vec<String>,
    pub db: Option<String>,
}

/// Arguments of `dlog commit`.
#[derive(Debug)]
pub struct CommitArgs {
    pub decisions: Vec<String>,
    pub db: Option<String>,
    /// Passed on to `git commit`.
    pub git_args: Vec<String>,
}

/// Arguments of `dlog export`.
#[derive(Debug)]
pub struct ExportArgs {
    /// A decision id or a `YYYY-MM-DD` date to start from.
    pub since: Option<String>,
    pub out: String,
    pub db: Option<String>,
}

/// Arguments of `dlog import`.
#[derive(Debug)]
pub struct ImportArgs {
    /// The export file; `-` reads stdin.
    pub path: String,
    pub db: Option<String>,
}

} // verus!
