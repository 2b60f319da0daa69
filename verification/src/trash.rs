//! The outcome of moving a batch of files to the trash.
//!
//! The caller tries each path in turn. `trash_step` decides for each path
//! whether a move is to be tried at all and what its outcome is; the
//! outcomes are then filed, each path under the deleted ones or under the
//! failures.

use vstd::prelude::*;
use vstd::string::*;

verus! {

/// What happened when a path was to be moved to the trash.
#[derive(Debug, Clone)]
pub enum TrashOutcome {
    /// Nothing exists at the path; no move was tried.
    Missing,
    /// The file is in the trash.
    Trashed,
    /// The move failed; the text is the platform's reason.
    Failed(String),
}

/// The mathematical value of a `TrashOutcome`.
pub ghost enum OutcomeView {
    Missing,
    Trashed,
    Failed(Seq<char>),
}

impl View for TrashOutcome {
    type V = OutcomeView;

    open spec fn view(&self) -> OutcomeView {
        match self {
            TrashOutcome::Missing => OutcomeView::Missing,
            TrashOutcome::Trashed => OutcomeView::Trashed,
            TrashOutcome::Failed(reason) => OutcomeView::Failed(reason@),
        }
    }
}

/// One path of a batch with what happened to it.
#[derive(Debug, Clone)]
pub struct TrashAttempt {
    pub path: String,
    pub outcome: TrashOutcome,
}

/// The mathematical value of a `TrashAttempt`.
pub ghost struct AttemptView {
    pub path: Seq<char>,
    pub outcome: OutcomeView,
}

impl View for TrashAttempt {
    type V = AttemptView;

    open spec fn view(&self) -> AttemptView {
        AttemptView { path: self.path@, outcome: self.outcome@ }
    }
}

/// The values of a sequence of attempts.
pub open spec fn attempts_view(attempts: Seq<TrashAttempt>) -> Seq<AttemptView> {
    attempts.map_values(|attempt: TrashAttempt| attempt@)
}

/// A path that could not be moved to the trash, and why.
#[derive(Debug, Clone)]
pub struct DeleteError {
    pub path: String,
    pub error: String,
}

/// The mathematical value of a `DeleteError`.
pub ghost struct DeleteErrorView {
    pub path: Seq<char>,
    pub error: Seq<char>,
}

impl View for DeleteError {
    type V = DeleteErrorView;

    open spec fn view(&self) -> DeleteErrorView {
        DeleteErrorView { path: self.path@, error: self.error@ }
    }
}

/// The outcome of a batch: the paths that are in the trash, and the
/// failures, each in the order of the batch.
#[derive(Debug, Clone)]
pub struct DeleteResult {
    pub deleted: Vec<String>,
    pub failed: Vec<DeleteError>,
}

/// The mathematical value of a `DeleteResult`.
pub ghost struct DeleteResultView {
    pub deleted: Seq<Seq<char>>,
    pub failed: Seq<DeleteErrorView>,
}

impl View for DeleteResult {
    type V = DeleteResultView;

    open spec fn view(&self) -> DeleteResultView {
        DeleteResultView {
            deleted: self.deleted@.map_values(|path: String| path@),
            failed: self.failed@.map_values(|failure: DeleteError| failure@),
        }
    }
}

/// The reason that is reported for an outcome other than success: the
/// text `does not exist` for a missing path, and the platform's own message
/// for a move that failed.
pub open spec fn failure_reason(outcome: OutcomeView) -> Seq<char> {
    match outcome {
        OutcomeView::Missing => "does not exist"@,
        OutcomeView::Failed(reason) => reason,
        OutcomeView::Trashed => Seq::empty(),
    }
}

/// `result` with one more attempt filed: a path that is in the trash joins
/// the deleted ones, every other path joins the failures with its reason.
pub open spec fn recorded(result: DeleteResultView, attempt: AttemptView) -> DeleteResultView {
    if attempt.outcome is Trashed {
        DeleteResultView { deleted: result.deleted.push(attempt.path), failed: result.failed }
    } else {
        DeleteResultView {
            deleted: result.deleted,
            failed: result.failed.push(
                DeleteErrorView { path: attempt.path, error: failure_reason(attempt.outcome) },
            ),
        }
    }
}

/// The outcome of the first `n` attempts.
pub open spec fn outcome_of_prefix(attempts: Seq<AttemptView>, n: nat) -> DeleteResultView
    decreases n,
{
    if n == 0 {
        DeleteResultView { deleted: Seq::empty(), failed: Seq::empty() }
    } else {
        recorded(outcome_of_prefix(attempts, (n - 1) as nat), attempts[n - 1])
    }
}

/// The outcome of a batch.
pub open spec fn outcome_of(attempts: Seq<AttemptView>) -> DeleteResultView {
    outcome_of_prefix(attempts, attempts.len())
}

impl DeleteResult {
    /// The outcome of an empty batch.
    pub fn new() -> (result: Self)
        ensures
            result@ == (DeleteResultView { deleted: Seq::empty(), failed: Seq::empty() }),
    {
        let result = DeleteResult { deleted: Vec::new(), failed: Vec::new() };
        assert(result@.deleted =~= Seq::empty());
        assert(result@.failed =~= Seq::empty());
        result
    }

    /// Files one more path under the deleted ones or under the failures.
    pub fn record(&mut self, path: &str, outcome: &TrashOutcome)
        ensures
            final(self)@ == recorded(old(self)@, (AttemptView { path: path@, outcome: outcome@ })),
    {
        let ghost before = self@;
        match outcome {
            TrashOutcome::Trashed => {
                self.deleted.push(String::from_str(path));
                assert(self@.deleted =~= before.deleted.push(path@));
                assert(self@.failed =~= before.failed);
            },
            TrashOutcome::Missing => {
                let failure = DeleteError {
                    path: String::from_str(path),
                    error: String::from_str("does not exist"),
                };
                self.failed.push(failure);
                assert(self@.failed =~= before.failed.push(failure@));
                assert(self@.deleted =~= before.deleted);
            },
            TrashOutcome::Failed(reason) => {
                let failure = DeleteError {
                    path: String::from_str(path),
                    error: reason.clone(),
                };
                self.failed.push(failure);
                assert(self@.failed =~= before.failed.push(failure@));
                assert(self@.deleted =~= before.deleted);
            },
        }
    }
}

/// What to do next for one path of a batch.
#[derive(Debug)]
pub enum TrashStep {
    /// Move the file to the trash and ask again with what the move gave.
    MoveToTrash,
    /// The outcome for the path is settled.
    Done(TrashOutcome),
}

/// `step` is the next step for a path, where `exists` tells whether
/// something exists at the path and `moved` is what the move to the trash
/// gave, if it was tried.
///
/// For a path at which nothing exists no move is asked for, and the
/// outcome is `Missing`. Otherwise the move is asked for once; its success
/// gives `Trashed`, and its failure gives `Failed` with the platform's
/// message.
pub open spec fn is_trash_step(
    step: TrashStep,
    exists: bool,
    moved: Option<Result<(), String>>,
) -> bool {
    if !exists {
        step matches TrashStep::Done(outcome) && outcome@ == OutcomeView::Missing
    } else {
        match moved {
            None => step is MoveToTrash,
            Some(Ok(_)) => step matches TrashStep::Done(outcome) && outcome@
                == OutcomeView::Trashed,
            Some(Err(reason)) => step matches TrashStep::Done(outcome) && outcome@
                == OutcomeView::Failed(reason@),
        }
    }
}

/// Decides the next step for one path of a batch: whether to move the file
/// to the trash, or what the outcome for the path is.
pub fn trash_step(exists: bool, moved: Option<Result<(), String>>) -> (step: TrashStep)
    ensures
        is_trash_step(step, exists, moved),
{
    if !exists {
        return TrashStep::Done(TrashOutcome::Missing);
    }
    match &moved {
        None => TrashStep::MoveToTrash,
        Some(Ok(_)) => TrashStep::Done(TrashOutcome::Trashed),
        Some(Err(reason)) => TrashStep::Done(TrashOutcome::Failed(reason.clone())),
    }
}

/// Aggregates the outcome of a batch of deletions.
///
/// Every attempt is filed, in the order of the batch: a path that is in the
/// trash under `deleted`, every other path under `failed` with its reason.
/// The batch as a whole never fails.
pub fn delete_files_to_trash(attempts: &Vec<TrashAttempt>) -> (result: Result<
    DeleteResult,
    String,
>)
    ensures
        result matches Ok(outcome) && outcome@ == outcome_of(attempts_view(attempts@)),
{
    let ghost all = attempts_view(attempts@);
    let mut outcome = DeleteResult::new();
    let mut k: usize = 0;
    while k < attempts.len()
        invariant
            k <= attempts.len(),
            all == attempts_view(attempts@),
            outcome@ == outcome_of_prefix(all, k as nat),
        decreases attempts.len() - k,
    {
        assert(all[k as int] == attempts[k as int]@);
        outcome.record(attempts[k].path.as_str(), &attempts[k].outcome);
        k = k + 1;
    }
    Ok(outcome)
}

} // verus!
