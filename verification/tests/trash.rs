use dupfinder::trash::{
    delete_files_to_trash, trash_step, DeleteResult, TrashAttempt, TrashOutcome, TrashStep,
};

fn attempt(path: &str, outcome: TrashOutcome) -> TrashAttempt {
    TrashAttempt { path: path.to_string(), outcome }
}

#[test]
fn every_path_is_deleted_or_failed() {
    let attempts = vec![
        attempt("/d/a.txt", TrashOutcome::Trashed),
        attempt("/d/gone.txt", TrashOutcome::Missing),
        attempt("/d/b.txt", TrashOutcome::Trashed),
        attempt("/d/locked.txt", TrashOutcome::Failed("access denied".to_string())),
    ];
    let result = delete_files_to_trash(&attempts).unwrap();
    assert_eq!(result.deleted, vec!["/d/a.txt".to_string(), "/d/b.txt".to_string()]);
    assert_eq!(result.failed.len(), 2);
    assert_eq!(result.failed[0].path, "/d/gone.txt");
    assert_eq!(result.failed[0].error, "does not exist");
    assert_eq!(result.failed[1].path, "/d/locked.txt");
    assert_eq!(result.failed[1].error, "access denied");
    assert_eq!(result.deleted.len() + result.failed.len(), attempts.len());
    for a in &attempts {
        let deleted = result.deleted.contains(&a.path);
        let failed = result.failed.iter().any(|f| f.path == a.path);
        assert!(deleted != failed);
    }
}

#[test]
fn an_empty_batch_has_an_empty_outcome() {
    let result = delete_files_to_trash(&Vec::new()).unwrap();
    assert!(result.deleted.is_empty());
    assert!(result.failed.is_empty());
    let fresh = DeleteResult::new();
    assert!(fresh.deleted.is_empty() && fresh.failed.is_empty());
}

#[test]
fn a_batch_never_fails_as_a_whole() {
    let attempts = vec![
        attempt("x", TrashOutcome::Missing),
        attempt("y", TrashOutcome::Failed(String::new())),
    ];
    let result = delete_files_to_trash(&attempts);
    assert!(result.is_ok());
    let result = result.unwrap();
    assert!(result.deleted.is_empty());
    assert_eq!(result.failed.len(), 2);
    assert_eq!(result.failed[1].error, "");
}

#[test]
fn a_path_given_twice_is_reported_twice() {
    let attempts = vec![attempt("a", TrashOutcome::Trashed), attempt("a", TrashOutcome::Missing)];
    let result = delete_files_to_trash(&attempts).unwrap();
    assert_eq!(result.deleted, vec!["a".to_string()]);
    assert_eq!(result.failed.len(), 1);
    assert_eq!(result.failed[0].path, "a");
}

#[test]
fn outcomes_are_recorded_one_by_one() {
    let mut result = DeleteResult::new();
    result.record("one", &TrashOutcome::Trashed);
    result.record("two", &TrashOutcome::Failed("busy".to_string()));
    result.record("three", &TrashOutcome::Trashed);
    assert_eq!(result.deleted, vec!["one".to_string(), "three".to_string()]);
    assert_eq!(result.failed.len(), 1);
    assert_eq!(result.failed[0].path, "two");
    assert_eq!(result.failed[0].error, "busy");
}

#[test]
fn a_missing_path_is_a_failure_that_does_not_exist() {
    let step = trash_step(false, None);
    let outcome = match step {
        TrashStep::Done(outcome) => outcome,
        TrashStep::MoveToTrash => panic!("no move may be asked for a missing path"),
    };
    assert!(matches!(outcome, TrashOutcome::Missing));
    let attempts = vec![attempt("/no/such/file.txt", outcome)];
    let result = delete_files_to_trash(&attempts).unwrap();
    assert!(result.deleted.is_empty());
    assert_eq!(result.failed.len(), 1);
    assert_eq!(result.failed[0].path, "/no/such/file.txt");
    assert_eq!(result.failed[0].error, "does not exist");
}

#[test]
fn no_move_is_asked_for_a_missing_path() {
    assert!(matches!(trash_step(false, None), TrashStep::Done(TrashOutcome::Missing)));
    assert!(matches!(trash_step(false, Some(Ok(()))), TrashStep::Done(TrashOutcome::Missing)));
    let failed = Some(Err("busy".to_string()));
    assert!(matches!(trash_step(false, failed), TrashStep::Done(TrashOutcome::Missing)));
}

#[test]
fn an_existing_path_is_moved_once() {
    assert!(matches!(trash_step(true, None), TrashStep::MoveToTrash));
    assert!(matches!(trash_step(true, Some(Ok(()))), TrashStep::Done(TrashOutcome::Trashed)));
    match trash_step(true, Some(Err("access denied".to_string()))) {
        TrashStep::Done(TrashOutcome::Failed(reason)) => assert_eq!(reason, "access denied"),
        _ => panic!("expected a failed move"),
    }
}

#[test]
fn a_failed_move_is_reported_with_the_message_of_the_platform() {
    let attempts = vec![attempt("locked", TrashOutcome::Failed("Permission denied (os error 13)".to_string()))];
    let result = delete_files_to_trash(&attempts).unwrap();
    assert_eq!(result.failed[0].error, "Permission denied (os error 13)");
}
