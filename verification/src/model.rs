//! Domain types of the decision log.
//!
//! Each type comes with a ghost view, the mathematical value that the contracts
//! speak of: text is a sequence of characters, a list is a sequence of views.
use crate::table::{Keyed, Row};
use vstd::prelude::*;

verus! {

/// Identity of the agent that recorded a decision. `role` separates e.g. critic
/// from implementer; `model` and `session_id` locate it in a transcript.
///
/// `author` is the human behind the agent. It is optional, and only ever set
/// explicitly (`--author` or `$DLOG_AUTHOR`); it is never read from git config.
#[derive(Debug, PartialEq, Eq)]
pub struct Agent {
    pub role: String,
    pub model: String,
    pub session_id: Option<String>,
    pub author: Option<String>,
}

/// The value of an `Agent`.
pub ghost struct AgentView {
    pub role: Seq<char>,
    pub model: Seq<char>,
    pub session_id: Option<Seq<char>>,
    pub author: Option<Seq<char>>,
}

impl DeepView for Agent {
    type V = AgentView;

    open spec fn deep_view(&self) -> AgentView {
        AgentView {
            role: self.role@,
            model: self.model@,
            session_id: self.session_id.deep_view(),
            author: self.author.deep_view(),
        }
    }
}

impl View for Agent {
    type V = AgentView;

    open spec fn view(&self) -> AgentView {
        self.deep_view()
    }
}

impl Clone for Agent {
    fn clone(&self) -> (r: Self)
        ensures
            r@ == self@,
    {
        Agent {
            role: self.role.clone(),
            model: self.model.clone(),
            session_id: self.session_id.clone(),
            author: self.author.clone(),
        }
    }
}

/// A rejected alternative: what was tried and why it was dropped.
#[derive(Debug, PartialEq, Eq)]
pub struct Rejected {
    pub approach: String,
    pub reason: String,
}

/// The value of a `Rejected`.
pub ghost struct RejectedView {
    pub approach: Seq<char>,
    pub reason: Seq<char>,
}

impl DeepView for Rejected {
    type V = RejectedView;

    open spec fn deep_view(&self) -> RejectedView {
        RejectedView {
            approach: self.approach@,
            reason: self.reason@,
        }
    }
}

impl View for Rejected {
    type V = RejectedView;

    open spec fn view(&self) -> RejectedView {
        self.deep_view()
    }
}

impl Clone for Rejected {
    fn clone(&self) -> (r: Self)
        ensures
            r@ == self@,
    {
        Rejected {
            approach: self.approach.clone(),
            reason: self.reason.clone(),
        }
    }
}

/// An anchor observation captured at record time. Nothing here asserts anything
/// about the present: identity is judged at query time. A file-level anchor leaves
/// `symbol_path` and `structural_hash` empty.
#[derive(Debug, PartialEq, Eq)]
pub struct Anchor {
    pub file: String,
    pub symbol_path: Option<String>,
    pub node_kind: Option<String>,
    pub structural_hash: Option<String>,
    /// Human snapshot only, never used for resolution.
    pub line_span: Option<(u32, u32)>,
    pub recorded_at_sha: Option<String>,
}

/// The value of an `Anchor`.
pub ghost struct AnchorView {
    pub file: Seq<char>,
    pub symbol_path: Option<Seq<char>>,
    pub node_kind: Option<Seq<char>>,
    pub structural_hash: Option<Seq<char>>,
    pub line_span: Option<(u32, u32)>,
    pub recorded_at_sha: Option<Seq<char>>,
}

impl DeepView for Anchor {
    type V = AnchorView;

    open spec fn deep_view(&self) -> AnchorView {
        AnchorView {
            file: self.file@,
            symbol_path: self.symbol_path.deep_view(),
            node_kind: self.node_kind.deep_view(),
            structural_hash: self.structural_hash.deep_view(),
            line_span: self.line_span,
            recorded_at_sha: self.recorded_at_sha.deep_view(),
        }
    }
}

impl View for Anchor {
    type V = AnchorView;

    open spec fn view(&self) -> AnchorView {
        self.deep_view()
    }
}

impl Clone for Anchor {
    fn clone(&self) -> (r: Self)
        ensures
            r@ == self@,
    {
        Anchor {
            file: self.file.clone(),
            symbol_path: self.symbol_path.clone(),
            node_kind: self.node_kind.clone(),
            structural_hash: self.structural_hash.clone(),
            line_span: self.line_span,
            recorded_at_sha: self.recorded_at_sha.clone(),
        }
    }
}

/// The binding stamped on a decision at seal time. Main-log decisions always
/// carry one; staged decisions have none.
#[derive(Debug, PartialEq, Eq)]
pub enum Binding {
    /// The decision led to a commit.
    Commit { sha: String },
    /// Investigation or review that led to no commit.
    NoCommit,
}

/// The value of a `Binding`.
pub ghost enum BindingView {
    Commit { sha: Seq<char> },
    NoCommit,
}

impl DeepView for Binding {
    type V = BindingView;

    open spec fn deep_view(&self) -> BindingView {
        match self {
            Binding::Commit { sha } => BindingView::Commit { sha: sha@ },
            Binding::NoCommit => BindingView::NoCommit,
        }
    }
}

impl View for Binding {
    type V = BindingView;

    open spec fn view(&self) -> BindingView {
        self.deep_view()
    }
}

impl Clone for Binding {
    fn clone(&self) -> (r: Self)
        ensures
            r@ == self@,
    {
        match self {
            Binding::Commit { sha } => Binding::Commit { sha: sha.clone() },
            Binding::NoCommit => Binding::NoCommit,
        }
    }
}

/// Fields supplied when staging a new decision. Only `rationale`, an anchor and
/// `agent` are effectively required; the rest is optional.
#[derive(Debug, PartialEq, Eq)]
pub struct NewDecision {
    pub task_id: Option<String>,
    pub agent: Agent,
    pub conversation_id: Option<String>,
    pub rationale: String,
    pub rejected: Vec<Rejected>,
    pub caused_by: Vec<String>,
    pub supersedes: Option<String>,
    pub anchors: Vec<Anchor>,
}

/// The value of a `NewDecision`.
pub ghost struct NewDecisionView {
    pub task_id: Option<Seq<char>>,
    pub agent: AgentView,
    pub conversation_id: Option<Seq<char>>,
    pub rationale: Seq<char>,
    pub rejected: Seq<RejectedView>,
    pub caused_by: Seq<Seq<char>>,
    pub supersedes: Option<Seq<char>>,
    pub anchors: Seq<AnchorView>,
}

impl DeepView for NewDecision {
    type V = NewDecisionView;

    open spec fn deep_view(&self) -> NewDecisionView {
        NewDecisionView {
            task_id: self.task_id.deep_view(),
            agent: self.agent.deep_view(),
            conversation_id: self.conversation_id.deep_view(),
            rationale: self.rationale@,
            rejected: self.rejected.deep_view(),
            caused_by: self.caused_by.deep_view(),
            supersedes: self.supersedes.deep_view(),
            anchors: self.anchors.deep_view(),
        }
    }
}

impl View for NewDecision {
    type V = NewDecisionView;

    open spec fn view(&self) -> NewDecisionView {
        self.deep_view()
    }
}

impl Clone for NewDecision {
    fn clone(&self) -> (r: Self)
        ensures
            r@ == self@,
    {
        let r = NewDecision {
            task_id: self.task_id.clone(),
            agent: self.agent.clone(),
            conversation_id: self.conversation_id.clone(),
            rationale: self.rationale.clone(),
            rejected: self.rejected.clone(),
            caused_by: self.caused_by.clone(),
            supersedes: self.supersedes.clone(),
            anchors: self.anchors.clone(),
        };
        assert(r.rejected.deep_view() =~= self.rejected.deep_view());
        assert(r.caused_by.deep_view() =~= self.caused_by.deep_view());
        assert(r.anchors.deep_view() =~= self.anchors.deep_view());
        r
    }
}

/// A decision as stored, including its lifecycle state. `staged == true` means it
/// is still in the staging area; once sealed it is immutable and carries a
/// `binding`.
#[derive(Debug, PartialEq, Eq)]
pub struct StoredDecision {
    pub id: String,
    pub task_id: Option<String>,
    pub agent: Agent,
    pub conversation_id: Option<String>,
    pub rationale: String,
    pub rejected: Vec<Rejected>,
    pub caused_by: Vec<String>,
    pub supersedes: Option<String>,
    pub anchors: Vec<Anchor>,
    /// Whether the decision is still pending.
    pub staged: bool,
    pub binding: Option<Binding>,
    /// Record time, epoch milliseconds.
    pub created_at_ms: i64,
}

/// The value of a `StoredDecision`.
pub ghost struct StoredDecisionView {
    pub id: Seq<char>,
    pub task_id: Option<Seq<char>>,
    pub agent: AgentView,
    pub conversation_id: Option<Seq<char>>,
    pub rationale: Seq<char>,
    pub rejected: Seq<RejectedView>,
    pub caused_by: Seq<Seq<char>>,
    pub supersedes: Option<Seq<char>>,
    pub anchors: Seq<AnchorView>,
    pub staged: bool,
    pub binding: Option<BindingView>,
    pub created_at_ms: i64,
}

impl DeepView for StoredDecision {
    type V = StoredDecisionView;

    open spec fn deep_view(&self) -> StoredDecisionView {
        StoredDecisionView {
            id: self.id@,
            task_id: self.task_id.deep_view(),
            agent: self.agent.deep_view(),
            conversation_id: self.conversation_id.deep_view(),
            rationale: self.rationale@,
            rejected: self.rejected.deep_view(),
            caused_by: self.caused_by.deep_view(),
            supersedes: self.supersedes.deep_view(),
            anchors: self.anchors.deep_view(),
            staged: self.staged,
            binding: self.binding.deep_view(),
            created_at_ms: self.created_at_ms,
        }
    }
}

impl View for StoredDecision {
    type V = StoredDecisionView;

    open spec fn view(&self) -> StoredDecisionView {
        self.deep_view()
    }
}

impl Clone for StoredDecision {
    fn clone(&self) -> (r: Self)
        ensures
            r@ == self@,
    {
        let r = StoredDecision {
            id: self.id.clone(),
            task_id: self.task_id.clone(),
            agent: self.agent.clone(),
            conversation_id: self.conversation_id.clone(),
            rationale: self.rationale.clone(),
            rejected: self.rejected.clone(),
            caused_by: self.caused_by.clone(),
            supersedes: self.supersedes.clone(),
            anchors: self.anchors.clone(),
            staged: self.staged,
            binding: self.binding.clone(),
            created_at_ms: self.created_at_ms,
        };
        assert(r.rejected.deep_view() =~= self.rejected.deep_view());
        assert(r.caused_by.deep_view() =~= self.caused_by.deep_view());
        assert(r.anchors.deep_view() =~= self.anchors.deep_view());
        r
    }
}

impl Keyed for StoredDecisionView {
    open spec fn key(&self) -> Seq<char> {
        self.id
    }
}

impl Row for StoredDecision {
    fn id(&self) -> (r: &String) {
        &self.id
    }

    fn copy(&self) -> (r: Self) {
        self.clone()
    }
}

} // verus!
