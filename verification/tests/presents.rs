use present_chain::presents::{
    add_present_to_chain, next_action, resolve_empty_probe, run_single_servant, OrderedSequence,
    PresentSystem, ServantAction, SourcePool, StepResult,
};

#[test]
fn scenario_no_presents() {
    let sys = run_single_servant(0);
    assert_eq!(sys.counter, 0);
    assert!(sys.pool.is_empty());
    assert!(sys.chain.is_empty());
}

#[test]
fn scenario_single_present() {
    let sys = run_single_servant(1);
    assert_eq!(sys.counter, 1);
    assert!(sys.pool.is_empty());
    assert!(sys.chain.is_empty());
}

#[test]
fn scenario_hundred_presents_sequential() {
    let sys = run_single_servant(100);
    assert_eq!(sys.counter, 100);
    assert_eq!(sys.total, 100);
    assert!(sys.pool.is_empty());
    assert!(sys.chain.is_empty());
}

#[test]
fn insert_order_check() {
    let mut chain: Vec<usize> = Vec::new();
    add_present_to_chain(&mut chain, 5);
    assert_eq!(chain, vec![5]);
    add_present_to_chain(&mut chain, 1);
    assert_eq!(chain, vec![1, 5]);
    add_present_to_chain(&mut chain, 3);
    assert_eq!(chain, vec![1, 3, 5]);
}

#[test]
fn ordered_sequence_keeps_ascending_order() {
    let mut chain = OrderedSequence::new();
    assert!(chain.is_empty());
    chain.insert_sorted(5);
    chain.insert_sorted(1);
    chain.insert_sorted(3);
    assert_eq!(chain.len(), 3);
    assert_eq!(chain.take_front(), Some(1));
    assert_eq!(chain.take_front(), Some(3));
    assert_eq!(chain.take_front(), Some(5));
    assert_eq!(chain.take_front(), None);
}

#[test]
fn ordered_sequence_membership() {
    let mut chain = OrderedSequence::new();
    chain.insert_sorted(2);
    chain.insert_sorted(8);
    assert!(chain.contains(2));
    assert!(chain.contains(8));
    assert!(!chain.contains(5));
}

#[test]
fn source_pool_holds_every_present_once() {
    let mut pool = SourcePool::new_randomized(10);
    assert_eq!(pool.len(), 10);
    let mut drained = Vec::new();
    while let Some(present) = pool.try_take() {
        drained.push(present);
    }
    assert!(pool.is_empty());
    drained.sort();
    assert_eq!(drained, (1..=10).collect::<Vec<usize>>());
}

#[test]
fn empty_pool_yields_nothing() {
    let mut pool = SourcePool::new_randomized(0);
    assert!(pool.is_empty());
    assert_eq!(pool.try_take(), None);
}

#[test]
fn roles_toggle_unconditionally() {
    assert_eq!(
        next_action(ServantAction::AddPresentToChain),
        ServantAction::WriteThankYouCard
    );
    assert_eq!(
        next_action(ServantAction::WriteThankYouCard),
        ServantAction::AddPresentToChain
    );
    assert_eq!(
        next_action(ServantAction::CheckIfPresentOnChain(7)),
        ServantAction::AddPresentToChain
    );
}

#[test]
fn empty_probe_decides_termination() {
    assert_eq!(resolve_empty_probe(true), StepResult::Finished);
    assert_eq!(resolve_empty_probe(false), StepResult::MustWait);
}

#[test]
fn steps_preserve_conservation() {
    let mut sys = PresentSystem::new(3);
    assert_eq!(sys.pool.len() + sys.chain.len() + sys.counter, 3);
    assert_eq!(sys.transfer_step(), StepResult::DidWork);
    assert_eq!(sys.pool.len() + sys.chain.len() + sys.counter, 3);
    assert_eq!(sys.finalize_step(), StepResult::DidWork);
    assert_eq!(sys.pool.len() + sys.chain.len() + sys.counter, 3);
    assert_eq!(sys.counter, 1);
}

#[test]
fn empty_run_finishes_immediately() {
    let mut sys = PresentSystem::new(0);
    assert_eq!(sys.transfer_step(), StepResult::Finished);
    assert_eq!(sys.finalize_step(), StepResult::Finished);
    assert_eq!(sys.counter, 0);
}

#[test]
fn servant_waits_while_work_is_in_flight() {
    // A present still on the chain keeps a transferring servant waiting.
    let mut sys = PresentSystem::new(1);
    assert_eq!(sys.transfer_step(), StepResult::DidWork);
    assert_eq!(sys.transfer_step(), StepResult::MustWait);
    // A present still in the bag keeps a finalizing servant waiting.
    let mut other = PresentSystem::new(1);
    assert_eq!(other.finalize_step(), StepResult::MustWait);
}

#[test]
fn manual_alternation_matches_protocol() {
    let mut sys = PresentSystem::new(5);
    let mut role = ServantAction::AddPresentToChain;
    loop {
        let result = match role {
            ServantAction::AddPresentToChain => sys.transfer_step(),
            ServantAction::WriteThankYouCard => sys.finalize_step(),
            ServantAction::CheckIfPresentOnChain(_) => unreachable!(),
        };
        match result {
            StepResult::DidWork => role = next_action(role),
            StepResult::Finished => break,
            StepResult::MustWait => {}
        }
    }
    assert_eq!(sys.counter, 5);
    assert!(sys.pool.is_empty());
    assert!(sys.chain.is_empty());
}
