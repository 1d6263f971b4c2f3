use phase1_coordinator::coordinator::{Coordinator, Dummy};
use phase1_coordinator::environment::{
    initialize_test_environment_with_debug, ContributionMode, CurveKind, Environment, Parameters, ProvingSystem,
    Testing,
};
use phase1_coordinator::error::CoordinatorError;
use phase1_coordinator::locator::{contribution_locator, parse_locator};
use phase1_coordinator::participant::{contributor_with_seed, create_contributor, create_verifier, Participant};
use phase1_coordinator::task::{initialize_tasks, Task};

use std::collections::HashSet;

fn environment(power: usize, chunk_size: usize) -> Environment {
    let parameters = Parameters::Custom((
        ContributionMode::Chunked,
        ProvingSystem::Groth16,
        CurveKind::Bls12_377,
        power,
        chunk_size,
        chunk_size,
    ));
    initialize_test_environment_with_debug(&Testing::from(parameters).into())
}

/// A coordinator in round 1 with the given contributors (by id) and one verifier.
fn round_one(contributors: &[&str]) -> (Coordinator, Vec<Participant>, Participant) {
    let mut coordinator = Coordinator::new(environment(6, 16), Box::new(Dummy)).unwrap();
    coordinator.initialize().unwrap();
    let mut people = Vec::new();
    for (i, id) in contributors.iter().enumerate() {
        let (contributor, _, _) = create_contributor(id).unwrap();
        coordinator.add_to_queue(contributor.clone(), 10 - i as u8).unwrap();
        people.push(contributor);
    }
    let (verifier, _) = create_verifier("1");
    coordinator.add_to_queue(verifier.clone(), 10).unwrap();
    coordinator.update().unwrap();
    (coordinator, people, verifier)
}

#[test]
fn test_participant_names() {
    let (contributor, key, _) = create_contributor("7").unwrap();
    let (verifier, verifier_key) = create_verifier("3");
    assert_eq!(contributor, Participant::Contributor("test-contributor-7".to_string()));
    assert_eq!(verifier, Participant::Verifier("test-verifier-3".to_string()));
    assert_eq!(key, "secret_key");
    assert_eq!(verifier_key, "secret_key");
}

#[test]
fn test_number_of_chunks() {
    assert_eq!(8, environment(6, 16).number_of_chunks());
    assert_eq!(8, environment(7, 32).number_of_chunks());
    // 2^(5+1) - 1 = 63 powers in chunks of 10: six full chunks and one of 3.
    assert_eq!(7, environment(5, 10).number_of_chunks());
    let marlin = Parameters::Custom((ContributionMode::Chunked, ProvingSystem::Marlin, CurveKind::BW6, 7, 32, 32));
    assert_eq!(4, Testing::from(marlin).into().number_of_chunks());
    let full = Parameters::Custom((ContributionMode::Full, ProvingSystem::Groth16, CurveKind::BW6, 7, 32, 32));
    assert_eq!(1, Testing::from(full).into().number_of_chunks());
    assert_eq!(0, environment(6, 0).number_of_chunks());
    assert_eq!(0, environment(63, 16).number_of_chunks());
}

#[test]
fn test_environment_invalid() {
    assert_eq!(Some(CoordinatorError::EnvironmentInvalid), Coordinator::new(environment(6, 0), Box::new(Dummy)).err());
}

#[test]
fn test_initialize_tasks_schedule() {
    let tasks = initialize_tasks(1, 8, 3).unwrap();
    let expected: Vec<Task> = [(2, 1), (3, 1), (4, 2), (5, 2), (6, 2), (7, 2), (0, 3), (1, 3)]
        .iter()
        .map(|&(c, k)| Task::new(c, k))
        .collect();
    assert_eq!(expected, tasks);
    let first = initialize_tasks(0, 8, 2).unwrap();
    let expected: Vec<Task> = [(0, 1), (1, 1), (2, 1), (3, 1), (4, 2), (5, 2), (6, 2), (7, 2)]
        .iter()
        .map(|&(c, k)| Task::new(c, k))
        .collect();
    assert_eq!(expected, first);
    assert_eq!(Err(CoordinatorError::TaskScheduleInvalid), initialize_tasks(3, 8, 3));
    assert_eq!(Err(CoordinatorError::TaskScheduleInvalid), initialize_tasks(0, 2, 3));
    assert_eq!(Err(CoordinatorError::TaskScheduleInvalid), initialize_tasks(0, 8, 0));
}

#[test]
fn test_round_tasks_partition() {
    for contributors in 1..=8u64 {
        let mut all: HashSet<Task> = HashSet::new();
        for bucket in 0..contributors {
            let tasks = initialize_tasks(bucket, 8, contributors).unwrap();
            assert_eq!(8, tasks.len());
            for t in tasks {
                assert!(t.chunk_id < 8 && 1 <= t.contribution_id && t.contribution_id <= contributors);
                assert!(all.insert(t));
            }
        }
        assert_eq!(8 * contributors as usize, all.len());
    }
}

#[test]
fn test_locator_format() {
    assert_eq!("round_1/chunk_4/contribution_1.unverified", contribution_locator(1, 4, 1, false));
    assert_eq!("round_0/chunk_10/contribution_0.verified", contribution_locator(0, 10, 0, true));
}

#[test]
fn test_locator_round_trip() {
    for &(h, c, k, v) in &[(0u64, 0u64, 0u64, false), (1, 4, 1, true), (u64::MAX, 12345, 10, false)] {
        assert_eq!(Ok((h, c, k, v)), parse_locator(&contribution_locator(h, c, k, v)));
    }
}

#[test]
fn test_locator_rejected() {
    for bad in [
        "",
        "round_01/chunk_1/contribution_1.verified",
        "round_18446744073709551616/chunk_1/contribution_1.verified",
        "round_1/chunk_1/contribution_1.verifiedx",
        "round_1/chunk_/contribution_1.verified",
        "round_1/chunk_1/contribution_1",
        "round_1/piece_1/contribution_1.verified",
    ] {
        assert_eq!(Err(CoordinatorError::LocatorInvalid), parse_locator(bad));
    }
}

#[test]
fn test_initialize_twice() {
    let mut coordinator = Coordinator::new(environment(6, 16), Box::new(Dummy)).unwrap();
    assert_eq!(Err(CoordinatorError::CoordinatorNotInitialized), coordinator.current_round_height());
    let (contributor, _, _) = create_contributor("1").unwrap();
    assert_eq!(Err(CoordinatorError::CoordinatorNotInitialized), coordinator.add_to_queue(contributor, 1));
    coordinator.initialize().unwrap();
    assert_eq!(Err(CoordinatorError::CoordinatorAlreadyInitialized), coordinator.initialize());
    assert_eq!(Ok(0), coordinator.current_round_height());
}

#[test]
fn test_queue_rules() {
    let mut coordinator = Coordinator::new(environment(6, 16), Box::new(Dummy)).unwrap();
    coordinator.initialize().unwrap();
    let (first, _, _) = create_contributor("first").unwrap();
    coordinator.add_to_queue(first.clone(), 5).unwrap();
    assert_eq!(Err(CoordinatorError::ParticipantAlreadyAdded), coordinator.add_to_queue(first.clone(), 9));
    for i in 0..7 {
        let (c, _, _) = create_contributor(&i.to_string()).unwrap();
        coordinator.add_to_queue(c, 1).unwrap();
    }
    assert_eq!(8, coordinator.number_of_queue_contributors());
    let (late, _, _) = create_contributor("late").unwrap();
    assert_eq!(Err(CoordinatorError::QueueIsFull), coordinator.add_to_queue(late.clone(), 3));
    assert!(!coordinator.is_queue_contributor(&late));
    // Verifiers are not limited by the chunk count.
    let (verifier, _) = create_verifier("v");
    coordinator.add_to_queue(verifier.clone(), 0).unwrap();
    assert_eq!(1, coordinator.number_of_queue_verifiers());
    assert!(coordinator.is_queue_verifier(&verifier));
    assert!(!coordinator.is_queue_contributor(&verifier));
}

#[test]
fn test_queue_order_sets_buckets() {
    let mut coordinator = Coordinator::new(environment(6, 16), Box::new(Dummy)).unwrap();
    coordinator.initialize().unwrap();
    let (low, _, _) = create_contributor("low").unwrap();
    let (high, _, _) = create_contributor("high").unwrap();
    let (mid, _, _) = create_contributor("mid").unwrap();
    let (verifier, _) = create_verifier("v");
    coordinator.add_to_queue(low.clone(), 1).unwrap();
    coordinator.add_to_queue(high.clone(), 9).unwrap();
    coordinator.add_to_queue(mid.clone(), 5).unwrap();
    coordinator.add_to_queue(verifier, 1).unwrap();
    coordinator.update().unwrap();
    let contributors = coordinator.current_contributors();
    let order: Vec<(Participant, u64)> = contributors.iter().map(|(p, info)| (p.clone(), info.bucket_id())).collect();
    assert_eq!(vec![(high, 0), (mid, 1), (low, 2)], order);
}

#[test]
fn test_current_participants_may_not_queue_when_disallowed() {
    let mut env = environment(6, 16);
    env.allow_current_contributors_in_queue = false;
    let mut coordinator = Coordinator::new(env, Box::new(Dummy)).unwrap();
    coordinator.initialize().unwrap();
    let (contributor, _, _) = create_contributor("1").unwrap();
    let (verifier, _) = create_verifier("1");
    coordinator.add_to_queue(contributor.clone(), 1).unwrap();
    coordinator.add_to_queue(verifier.clone(), 1).unwrap();
    coordinator.update().unwrap();
    assert_eq!(
        Err(CoordinatorError::ParticipantInCurrentRoundCannotJoinQueue),
        coordinator.add_to_queue(contributor, 1)
    );
    coordinator.add_to_queue(verifier, 1).unwrap();
}

#[test]
fn test_update_waits_for_finished_round() {
    let (mut coordinator, people, verifier) = round_one(&["1"]);
    let (next, _, _) = create_contributor("2").unwrap();
    coordinator.add_to_queue(next.clone(), 1).unwrap();
    coordinator.add_to_queue(verifier.clone(), 1).unwrap();
    coordinator.update().unwrap();
    assert_eq!(Ok(1), coordinator.current_round_height());
    assert!(coordinator.is_queue_contributor(&next));
    let (key, seed) = ("secret_key".to_string(), [0u8; 32]);
    for _ in 0..8 {
        coordinator.contribute(&people[0], &key, &seed).unwrap();
        coordinator.verify(&verifier, &key).unwrap();
    }
    coordinator.update().unwrap();
    assert_eq!(Ok(2), coordinator.current_round_height());
    assert!(coordinator.is_current_contributor(&next));
    assert!(coordinator.is_finished_contributor(&people[0]));
    assert!(!coordinator.is_current_contributor(&people[0]));
    assert!(coordinator.is_finished_verifier(&verifier));
    assert!(coordinator.is_current_verifier(&verifier));
}

#[test]
fn test_lock_errors() {
    let (mut coordinator, people, verifier) = round_one(&["1", "2"]);
    let (stranger, _, _) = create_contributor("3").unwrap();
    assert_eq!(Err(CoordinatorError::ParticipantUnauthorized), coordinator.try_lock(&verifier));
    assert_eq!(Err(CoordinatorError::ParticipantNotFound), coordinator.try_lock(&stranger));
    let (chunk, previous, challenge, response) = coordinator.try_lock(&people[0]).unwrap();
    assert_eq!(0, chunk);
    assert_eq!("round_1/chunk_0/contribution_0.unverified", previous);
    assert_eq!("round_1/chunk_0/contribution_0.verified", challenge);
    assert_eq!("round_1/chunk_0/contribution_1.unverified", response);
    assert_eq!(Err(CoordinatorError::ChunkLockLimitReached), coordinator.try_lock(&people[0]));
    let info = &coordinator.current_contributors()[0].1.pending_tasks().clone();
    assert_eq!(&vec![Task::new(0, 1)], info);
}

#[test]
fn test_contribution_errors() {
    let (mut coordinator, people, verifier) = round_one(&["1"]);
    let key = "secret_key".to_string();
    let seed = [1u8; 32];
    assert_eq!(
        Err(CoordinatorError::ChunkNotLockedOrByWrongParticipant),
        coordinator.try_contribute(&people[0], 0)
    );
    coordinator.try_lock(&people[0]).unwrap();
    assert_eq!(Err(CoordinatorError::ContributionMissing), coordinator.try_contribute(&people[0], 0));
    assert_eq!(
        Err(CoordinatorError::ContributionIdMismatch),
        coordinator.run_computation(1, 0, 2, &people[0], &key, &seed)
    );
    assert_eq!(
        Err(CoordinatorError::ContributionIdMismatch),
        coordinator.run_computation(2, 0, 1, &people[0], &key, &seed)
    );
    assert_eq!(
        Err(CoordinatorError::ChunkNotLockedOrByWrongParticipant),
        coordinator.run_computation(1, 3, 1, &people[0], &key, &seed)
    );
    assert_eq!(Err(CoordinatorError::NoPendingVerifications), coordinator.verify(&verifier, &key));
    coordinator.run_computation(1, 0, 1, &people[0], &key, &seed).unwrap();
    coordinator.try_contribute(&people[0], 0).unwrap();
    assert_eq!(Err(CoordinatorError::ParticipantUnauthorized), coordinator.verify(&people[0], &key));
    let (other_verifier, _) = create_verifier("9");
    assert_eq!(Err(CoordinatorError::ParticipantNotFound), coordinator.verify(&other_verifier, &key));
    coordinator.verify(&verifier, &key).unwrap();
    for _ in 1..8 {
        coordinator.contribute(&people[0], &key, &seed).unwrap();
    }
    assert_eq!(Err(CoordinatorError::ContributorHasNoTasks), coordinator.try_lock(&people[0]));
}

#[test]
fn test_round_snapshot() {
    let (mut coordinator, people, verifier) = round_one(&["1", "2"]);
    let key = "secret_key".to_string();
    let seed = [1u8; 32];
    coordinator.contribute(&people[0], &key, &seed).unwrap();
    coordinator.contribute(&people[1], &key, &seed).unwrap();
    coordinator.verify(&verifier, &key).unwrap();
    coordinator.try_lock(&people[0]).unwrap();
    let round = coordinator.current_round().unwrap();
    assert_eq!(1, round.round_height());
    assert_eq!(8, round.chunks().len());
    let chunk0 = &round.chunks()[0];
    assert_eq!(0, chunk0.chunk_id());
    assert_eq!(1, chunk0.get_contributions().len());
    let (id, contribution) = &chunk0.get_contributions()[0];
    assert_eq!(1, *id);
    assert_eq!(&Some(people[0].clone()), contribution.get_contributor());
    assert_eq!(&Some(verifier.clone()), contribution.get_verifier());
    assert!(contribution.is_verified());
    let chunk4 = &round.chunks()[4];
    assert!(!chunk4.get_contributions()[0].1.is_verified());
    assert_eq!(&None, chunk4.get_contributions()[0].1.get_verifier());
    assert_eq!(&Some(people[0].clone()), round.chunks()[1].lock_holder());
    assert_eq!(&None, round.chunks()[2].lock_holder());
}

#[test]
fn test_drop_rules() {
    let (mut coordinator, people, verifier) = round_one(&["1", "2"]);
    let coordinator_contributor = Participant::Contributor("testing-coordinator-contributor".to_string());
    assert_eq!(Err(CoordinatorError::ParticipantUnauthorized), coordinator.drop_participant(&coordinator_contributor));
    let (stranger, _, _) = create_contributor("3").unwrap();
    assert_eq!(Err(CoordinatorError::ParticipantNotFound), coordinator.drop_participant(&stranger));
    assert_eq!(Ok(Vec::<String>::new()), coordinator.drop_participant(&verifier));
    assert!(!coordinator.is_current_verifier(&verifier));
    let key = "secret_key".to_string();
    let seed = [1u8; 32];
    coordinator.contribute(&people[1], &key, &seed).unwrap();
    let locators = coordinator.drop_participant(&people[1]).unwrap();
    assert_eq!(vec!["round_1/chunk_4/contribution_1.unverified".to_string()], locators);
    assert!(coordinator.is_current_contributor(&coordinator_contributor));
    assert!(!coordinator.is_current_contributor(&people[1]));
}

#[test]
fn test_dropped_work_lock_is_released() {
    let (mut coordinator, people, verifier) = round_one(&["1", "2"]);
    let key = "secret_key".to_string();
    let seed = [1u8; 32];
    coordinator.contribute(&people[0], &key, &seed).unwrap();
    coordinator.contribute(&people[1], &key, &seed).unwrap();
    coordinator.verify(&verifier, &key).unwrap();
    coordinator.verify(&verifier, &key).unwrap();
    let (chunk, _, _, _) = coordinator.try_lock(&people[0]).unwrap();
    // Dropping the second contributor discards the work of the first, whose bucket comes before.
    coordinator.drop_participant(&people[1]).unwrap();
    let first = coordinator.current_contributors()[0].1.duplicate();
    assert_eq!(1, first.disposing_tasks().len());
    assert_eq!(8, first.assigned_tasks().len());
    assert_eq!(vec![chunk], *first.locked_chunks());
    // Handing the chunk in only releases the lock: nothing waits for verification.
    coordinator.try_contribute(&people[0], chunk).unwrap();
    let first = coordinator.current_contributors()[0].1.duplicate();
    assert_eq!(0, first.disposing_tasks().len());
    assert_eq!(0, first.locked_chunks().len());
    assert_eq!(Err(CoordinatorError::NoPendingVerifications), coordinator.verify(&verifier, &key));
    // Its first task starts again from the first contribution.
    let (again, _, _, response) = coordinator.try_lock(&people[0]).unwrap();
    assert_eq!(0, again);
    assert_eq!("round_1/chunk_0/contribution_1.unverified", response);
}

#[test]
fn test_round_without_requeue() {
    let (mut coordinator, people, verifier) = round_one(&["1"]);
    let key = "secret_key".to_string();
    let seed = [0u8; 32];
    for _ in 0..8 {
        coordinator.contribute(&people[0], &key, &seed).unwrap();
        coordinator.verify(&verifier, &key).unwrap();
    }
    // Nobody queued again: the finished round's participants carry over.
    coordinator.update().unwrap();
    assert_eq!(Ok(2), coordinator.current_round_height());
    assert_eq!(0, coordinator.number_of_queue_contributors());
    assert_eq!(0, coordinator.number_of_queue_verifiers());
    assert!(coordinator.is_current_contributor(&people[0]));
    assert!(coordinator.is_current_verifier(&verifier));
    assert!(coordinator.is_finished_contributor(&people[0]));
    assert!(coordinator.is_finished_verifier(&verifier));
    assert_eq!(8, coordinator.current_contributors()[0].1.assigned_tasks().len());
}

#[test]
fn test_update_before_round_finished_keeps_round() {
    let (mut coordinator, people, verifier) = round_one(&["1"]);
    let key = "secret_key".to_string();
    coordinator.contribute(&people[0], &key, &[0u8; 32]).unwrap();
    coordinator.verify(&verifier, &key).unwrap();
    coordinator.update().unwrap();
    assert_eq!(Ok(1), coordinator.current_round_height());
}

#[test]
fn test_update_on_empty_round_zero_waits() {
    let mut coordinator = Coordinator::new(environment(6, 16), Box::new(Dummy)).unwrap();
    coordinator.initialize().unwrap();
    coordinator.update().unwrap();
    assert_eq!(Ok(0), coordinator.current_round_height());
}

#[test]
fn test_contributor_with_seed() {
    let seed = [7u8; 32];
    let (contributor, key, kept) = contributor_with_seed("4", Some(seed)).unwrap();
    assert_eq!(Participant::Contributor("test-contributor-4".to_string()), contributor);
    assert_eq!("secret_key", key);
    assert_eq!(seed, kept);
    assert_eq!(Some(CoordinatorError::RandomnessUnavailable), contributor_with_seed("4", None).err());
}

fn records(coordinator: &Coordinator) -> Vec<(Participant, u64, Vec<Task>, Vec<Task>, Vec<Task>, Vec<Task>, Vec<Task>, Vec<u64>)> {
    coordinator
        .current_contributors()
        .iter()
        .map(|(p, info)| {
            (
                p.clone(),
                info.bucket_id(),
                info.assigned_tasks().clone(),
                info.pending_tasks().clone(),
                info.completed_tasks().clone(),
                info.disposing_tasks().clone(),
                info.disposed_tasks().clone(),
                info.locked_chunks().clone(),
            )
        })
        .collect()
}

#[test]
fn test_lock_before_drop_leaves_no_trace() {
    let key = "secret_key".to_string();
    let seed = [3u8; 32];
    let run = |lock_first: bool| {
        let (mut coordinator, people, verifier) = round_one(&["1", "2", "3"]);
        for person in &people {
            coordinator.contribute(person, &key, &seed).unwrap();
        }
        while coordinator.verify(&verifier, &key).is_ok() {}
        coordinator.try_lock(&people[0]).unwrap();
        if lock_first {
            coordinator.try_lock(&people[1]).unwrap();
        }
        let locators = coordinator.drop_participant(&people[1]).unwrap();
        (locators, records(&coordinator))
    };
    let (locators_plain, records_plain) = run(false);
    let (locators_locked, records_locked) = run(true);
    assert_eq!(locators_plain, locators_locked);
    assert_eq!(vec!["round_1/chunk_2/contribution_1.unverified".to_string()], locators_plain);
    assert_eq!(records_plain, records_locked);
    assert_eq!(3, records_plain.len());
}

fn statuses(coordinator: &Coordinator, p: &Participant) -> [bool; 6] {
    [
        coordinator.is_queue_contributor(p),
        coordinator.is_queue_verifier(p),
        coordinator.is_current_contributor(p),
        coordinator.is_current_verifier(p),
        coordinator.is_finished_contributor(p),
        coordinator.is_finished_verifier(p),
    ]
}

#[test]
fn test_statuses_around_queueing() {
    let mut coordinator = Coordinator::new(environment(6, 16), Box::new(Dummy)).unwrap();
    coordinator.initialize().unwrap();
    let (contributor, _, _) = create_contributor("s").unwrap();
    let (verifier, _) = create_verifier("s");
    assert_eq!([false; 6], statuses(&coordinator, &contributor));
    coordinator.add_to_queue(contributor.clone(), 2).unwrap();
    coordinator.add_to_queue(verifier.clone(), 2).unwrap();
    assert_eq!([true, false, false, false, false, false], statuses(&coordinator, &contributor));
    assert_eq!([false, true, false, false, false, false], statuses(&coordinator, &verifier));
    coordinator.update().unwrap();
    assert_eq!([false, false, true, false, false, false], statuses(&coordinator, &contributor));
    assert_eq!([false, false, false, true, false, false], statuses(&coordinator, &verifier));
}
