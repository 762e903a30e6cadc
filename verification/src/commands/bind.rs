//! `dlog bind`: seals staged decisions, stamping a binding.
//!
//! Recording happens before a commit, so decisions accumulate in staging; this is the seal
//! step that moves them into the immutable main log. The code path stamps a commit; the
//! other stamps none, for investigation or review that led to no commit.
use crate::cli::BindArgs;
use crate::commands::{failure, AppError, AppErrorView};
use crate::laws::seal_in_lookup;
use crate::log::{seal_in, Log};
use crate::model::{Binding, BindingView, StoredDecisionView};
use crate::queries::{pending_are_staged, same_words};
use crate::store::{sealable, seals, Store, StoreError};
use crate::table::{holds, lookup, lookup_sound};
use vstd::prelude::*;

verus! {

/// The reply.
#[derive(Debug, PartialEq, Eq)]
pub struct BindResult {
    pub count: usize,
    pub sealed: Vec<String>,
    pub binding: Binding,
}

/// The binding that a command names, if it names one.
pub open spec fn binding_of(none: bool, sha: Option<Seq<char>>) -> Option<BindingView> {
    if none {
        Some(BindingView::NoCommit)
    } else {
        match sha {
            Some(sha) => Some(BindingView::Commit { sha }),
            None => None,
        }
    }
}

/// The decisions that a command seals: those it names, or everything staged where it
/// names none.
pub open spec fn targets(log: Log, named: Seq<Seq<char>>) -> Seq<Seq<char>> {
    if named.len() == 0 {
        log.staged_ids()
    } else {
        named
    }
}

/// The decisions that a command names, where it names any.
pub fn only_named(decisions: &Vec<String>) -> (r: Option<&[String]>)
    ensures
        decisions@.len() == 0 ==> r is None,
        decisions@.len() > 0 ==> (r matches Some(list) && list.deep_view() == decisions.deep_view()),
{
    if decisions.len() == 0 {
        None
    } else {
        let list = decisions.as_slice();
        assert(list.deep_view() =~= decisions.deep_view());
        Some(list)
    }
}

/// The failure of a command that names no binding.
pub open spec fn no_binding() -> AppErrorView {
    failure("missing_binding"@, "bind requires a commit SHA or --none"@)
}

/// Reads the binding that a command names. A commit and none at all exclude each other on
/// the command line; what is refused here is neither.
pub fn requested_binding(args: &BindArgs) -> (r: Result<Binding, AppError>)
    ensures
        match binding_of(args.none, args.sha.deep_view()) {
            Some(binding) => r matches Ok(b) && b@ == binding,
            None => r matches Err(e) && e@ == no_binding(),
        },
{
    if args.none {
        return Ok(Binding::NoCommit);
    }
    match &args.sha {
        Some(sha) => Ok(Binding::Commit { sha: sha.clone() }),
        None => Err(AppError::new("missing_binding", "bind requires a commit SHA or --none")),
    }
}

/// Seals staged decisions with a commit, or with none: all that are named, or nothing.
pub fn run(store: &mut Store, args: &BindArgs) -> (r: Result<BindResult, AppError>)
    requires
        old(store).wf(),
    ensures
        final(store).wf(),
        match binding_of(args.none, args.sha.deep_view()) {
            None => (r matches Err(e) && e@ == no_binding()) && final(store).untouched(old(store)),
            Some(binding) => if args.decisions@.len() == 0 || sealable(
                old(store)@,
                args.decisions.deep_view(),
            ) {
                let ids = targets(old(store)@, args.decisions.deep_view());
                (r matches Ok(reply) && reply.sealed.deep_view() == ids && reply.count == ids.len()
                    && reply.binding@ == binding) && only_seals(
                    old(store)@,
                    final(store)@,
                    args.decisions.deep_view(),
                    if args.none {
                        BindingView::NoCommit
                    } else {
                        BindingView::Commit { sha: args.sha->0@ }
                    },
                ) && final(store).wrote(old(store), seals(ids, binding))
                    && final(store)@ == (Log {
                    decisions: seal_in(old(store)@.decisions, ids, binding),
                    ..old(store)@
                })
            } else {
                (r matches Err(e) && e@ == failure("store_error"@, StoreError::NothingChanged.words()))
                    && final(store).untouched(old(store))
            },
        },
{
    let binding = match requested_binding(args) {
        Ok(binding) => binding,
        Err(e) => {
            return Err(e);
        },
    };
    match store.seal_staged(&binding, only_named(&args.decisions)) {
        Ok(sealed) => {
            assert(sealed.deep_view().len() == sealed@.len());
            proof {
                targets_are_sealed(old(store)@, args.decisions.deep_view(), binding@);
            }
            Ok(BindResult { count: sealed.len(), sealed, binding })
        },
        Err(e) => Err(AppError::from_store(e)),
    }
}

// ---- Laws -------------------------------------------------------------------

/// `after` is `before` with the named decisions sealed, or all pending ones where none is
/// named: those are bound as given, every other decision is as it was, and no word of any
/// has changed.
pub open spec fn only_seals(before: Log, after: Log, named: Seq<Seq<char>>, binding: BindingView) -> bool {
    &&& after.tasks == before.tasks
    &&& after.invariants == before.invariants
    &&& forall|id: Seq<char>| holds(after.decisions, id) <==> #[trigger] holds(before.decisions, id)
    &&& forall|id: Seq<char>| #[trigger]
        holds(before.decisions, id) ==> seals_one(before, after, named, binding, id)
}

/// One decision of `before` is in `after` as sealing the named ones leaves it.
pub open spec fn seals_one(
    before: Log,
    after: Log,
    named: Seq<Seq<char>>,
    binding: BindingView,
    id: Seq<char>,
) -> bool {
    lookup(before.decisions, id) matches Some(d) && (lookup(after.decisions, id) matches Some(e) && same_words(
        e,
        d,
    ) && if d.staged && (named.len() == 0 || named.contains(id)) {
        !e.staged && e.binding == Some(binding)
    } else {
        e.staged == d.staged && e.binding == d.binding
    })
}

/// Sealing the targets of a command seals what it names, or everything pending.
pub proof fn targets_are_sealed(log: Log, named: Seq<Seq<char>>, binding: BindingView)
    requires
        log.ordered(),
    ensures
        only_seals(
            log,
            Log { decisions: seal_in(log.decisions, targets(log, named), binding), ..log },
            named,
            binding,
        ),
{
    let ids = targets(log, named);
    let after = Log { decisions: seal_in(log.decisions, ids, binding), ..log };
    assert forall|id: Seq<char>| holds(after.decisions, id) <==> #[trigger] holds(log.decisions, id) by {
        seal_in_lookup(log.decisions, ids, binding, id);
    }
    assert forall|id: Seq<char>| #[trigger] holds(log.decisions, id) implies seals_one(
        log,
        after,
        named,
        binding,
        id,
    ) by {
        seal_in_lookup(log.decisions, ids, binding, id);
        lookup_sound(log.decisions, id);
        pending_are_staged(log, Seq::empty(), id);
        let d = lookup(log.decisions, id)->0;
        if d.staged {
            let p = |x: StoredDecisionView| x.staged;
            assert(log.decisions.contains(d) && d.id == id && p(d));
        }
    }
}

} // verus!
