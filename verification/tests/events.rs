use pgp_challenger::event_loop::{should_submit, BatchPhase, BatchStep, EventBatch};
use pgp_challenger::events::{
    sort_events, ChainEvent, EventListener, EventListenerConfig, NewRootEvent, PollResult, RollbackEvent,
};
use pgp_challenger::settings::{check_settings, SettingsError};
use pgp_challenger::types::{Address, BlockData, TimestampAndIndex, B256, U256};

fn new_root(l1_block_number: u64) -> NewRootEvent {
    NewRootEvent {
        block_number: U256::from_u64(1),
        anchor: B256::zero(),
        l2_block_hash: B256::zero(),
        block_data: BlockData {
            anchor: B256::zero(),
            timestamp: U256::zero(),
            num_transactions: U256::zero(),
            num_deposits: U256::zero(),
            block_nr: U256::zero(),
            block_index: TimestampAndIndex { day: 0, index: 0 },
            sequencer: Address::zero(),
            blobhashes: vec![],
        },
        l1_block_number,
        tx_hash: B256::zero(),
    }
}

fn rollback(l1_block_number: u64) -> RollbackEvent {
    RollbackEvent { from: U256::from_u64(9), to: U256::from_u64(3), l1_block_number }
}

fn listener(confirmations: u64) -> EventListener {
    EventListener::new(EventListenerConfig { confirmations, ..EventListenerConfig::default() })
}

fn blocks(events: &[ChainEvent]) -> Vec<(u64, bool)> {
    events.iter().map(|e| (e.l1_block_number(), matches!(e, ChainEvent::Rollback(_)))).collect()
}

#[test]
fn test_event_listener_config_default() {
    let config = EventListenerConfig::default();
    assert_eq!(config.entrypoint_address, Address::zero());
    assert_eq!(config.lookback_blocks, 1000);
    assert_eq!(config.poll_interval_ms, 1000);
    assert_eq!(config.confirmations, 6);
}

#[test]
fn events_come_in_block_order() {
    let mut l = listener(0);
    let result = l.finish_poll(20, vec![new_root(5), new_root(12), new_root(3)], 1, vec![rollback(5), rollback(4)], 2);
    assert_eq!(blocks(&result.events), vec![(3, false), (4, true), (5, false), (5, true), (12, false)]);
    assert_eq!(l.last_processed_block(), 20);
    assert!(result.has_parse_failures());
    assert_eq!(result.total_parse_failures(), 3);
    assert!(!PollResult::default().has_parse_failures());
}

#[test]
fn events_of_one_block_keep_their_order() {
    let sorted = sort_events(vec![
        ChainEvent::Rollback(rollback(7)),
        ChainEvent::NewRoot(new_root(7)),
        ChainEvent::Rollback(rollback(7)),
        ChainEvent::NewRoot(new_root(6)),
    ]);
    assert_eq!(blocks(&sorted), vec![(6, false), (7, true), (7, false), (7, true)]);
    assert!(sort_events(vec![]).is_empty());
}

#[test]
fn only_confirmed_blocks_are_polled() {
    let mut l = listener(6);
    l.init(Some(100), 500);
    assert_eq!(l.last_processed_block(), 100);
    assert_eq!(l.poll_range(106), None);
    assert_eq!(l.poll_range(107), Some((101, 101)));
    assert_eq!(l.poll_range(200), Some((101, 194)));
    assert_eq!(l.poll_range(3), None);
}

#[test]
fn polling_leaves_no_gap() {
    let mut l = listener(6);
    l.init(Some(0), 0);
    let (from, to) = l.poll_range(50).unwrap();
    assert_eq!((from, to), (1, 44));
    l.finish_poll(to, vec![], 0, vec![], 0);
    assert_eq!(l.poll_range(60), Some((45, 54)));
    l.set_last_processed_block(10);
    assert_eq!(l.poll_range(60), Some((11, 54)));
}

#[test]
fn a_listener_starts_some_blocks_back() {
    let mut l = listener(6);
    l.init(None, 5000);
    assert_eq!(l.last_processed_block(), 4000);
    l.init(None, 10);
    assert_eq!(l.last_processed_block(), 0);
}

/// The steps of a batch, each reported to have gone as `outcome` says.
fn run(num_events: usize, outcome: fn(BatchStep) -> bool, shutdown_at: usize) -> Vec<BatchStep> {
    let mut batch = EventBatch::new(num_events);
    let mut steps = vec![];
    loop {
        let step = batch.next_step(steps.len() >= shutdown_at);
        if step == BatchStep::Finish {
            return steps;
        }
        steps.push(step);
        batch.report(outcome(step));
    }
}

#[test]
fn a_batch_is_committed_after_all_events() {
    assert_eq!(
        run(2, |_| true, 99),
        vec![
            BatchStep::BeginTransaction,
            BatchStep::ProcessEvent { index: 0 },
            BatchStep::ProcessEvent { index: 1 },
            BatchStep::SaveProgress,
            BatchStep::CommitTransaction,
        ]
    );
    assert!(run(0, |_| true, 99).is_empty());
}

#[test]
fn a_failed_event_does_not_hold_up_the_others_but_is_rolled_back() {
    let steps = run(3, |step| step != BatchStep::ProcessEvent { index: 1 }, 99);
    assert_eq!(
        steps,
        vec![
            BatchStep::BeginTransaction,
            BatchStep::ProcessEvent { index: 0 },
            BatchStep::ProcessEvent { index: 1 },
            BatchStep::ProcessEvent { index: 2 },
            BatchStep::RollbackTransaction,
        ]
    );
}

#[test]
fn a_shutdown_rolls_the_batch_back() {
    assert_eq!(
        run(3, |_| true, 2),
        vec![
            BatchStep::BeginTransaction,
            BatchStep::ProcessEvent { index: 0 },
            BatchStep::RollbackTransaction,
        ]
    );
}

#[test]
fn what_cannot_be_saved_is_rolled_back() {
    let steps = run(1, |step| step != BatchStep::SaveProgress, 99);
    assert_eq!(steps[3], BatchStep::RollbackTransaction);
    assert_eq!(steps.len(), 4);
    let steps = run(1, |step| step != BatchStep::CommitTransaction, 99);
    assert_eq!(steps[4], BatchStep::RollbackTransaction);
    assert_eq!(run(1, |step| step != BatchStep::BeginTransaction, 99), vec![BatchStep::BeginTransaction]);
}

#[test]
fn a_batch_starts_with_a_transaction() {
    assert_eq!(EventBatch::new(1).phase, BatchPhase::Begin);
    assert_eq!(EventBatch::new(0).phase, BatchPhase::Done);
}

#[test]
fn nothing_is_submitted_in_a_dry_run() {
    assert!(should_submit(1, false));
    assert!(!should_submit(1, true));
    assert!(!should_submit(0, false));
}

#[test]
fn settings_that_are_needed() {
    let a = Address::repeat_byte(1);
    let zero = Address::zero();
    assert_eq!(check_settings(a, a, false, true), Ok(()));
    assert_eq!(check_settings(a, a, true, false), Ok(()));
    assert_eq!(check_settings(zero, zero, false, false), Err(SettingsError::EntrypointMissing));
    assert_eq!(check_settings(a, zero, false, false), Err(SettingsError::DepositsMissing));
    let error = check_settings(a, a, false, false).err().unwrap();
    assert_eq!(error, SettingsError::PrivateKeyMissing);
    assert_eq!(error.message(), "challenger_private_key not configured");
}
