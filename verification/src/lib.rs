//! dlog: an agent-first decision log that sits alongside Git.
//!
//! A decision is recorded into staging before the commit it leads to, and sealed into an
//! append-only main log afterwards. This library holds the log, its queries and what each
//! command decides; files, git, the database on disk and the terminal belong to the
//! program around it.
use crate::commands::AppError;
use crate::output::{ErrorBodyView, ErrorEnvelope, ErrorEnvelopeView, EXIT_ERROR, EXIT_OK};
use vstd::prelude::*;

pub mod anchor;
pub mod cli;
pub mod commands;
pub mod definitions;
pub mod fts;
pub mod hashing;
pub mod ids;
pub mod laws;
pub mod log;
pub mod model;
pub mod output;
pub mod paths;
pub mod queries;
pub mod resolve;
pub mod store;
pub mod structural;
pub mod syntax;
pub mod table;
pub mod text;

verus! {

/// What a finished command is answered with: the exit code, and the failure document where
/// it failed.
pub fn run(outcome: Result<(), AppError>) -> (r: (i32, Option<ErrorEnvelope>))
    ensures
        match outcome {
            Ok(()) => r.0 == EXIT_OK && r.1 is None,
            Err(e) => r.0 == EXIT_ERROR && r.1.deep_view() == Some(
                ErrorEnvelopeView { error: ErrorBodyView { code: e@.code, message: e@.message } },
            ),
        },
{
    match outcome {
        Ok(()) => (EXIT_OK, None),
        Err(e) => (EXIT_ERROR, Some(e.into_envelope())),
    }
}

} // verus!
