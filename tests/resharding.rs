use kinesis_resharding::backoff::{next_cycle_delay, BackoffPolicy, FetchState};
use kinesis_resharding::checkpoint::Checkpoint;
use kinesis_resharding::error::LineageError;
use kinesis_resharding::lineage::{build_shard_lineage_map, validate_lineage};
use kinesis_resharding::migration::migrate_checkpoints;
use kinesis_resharding::position::is_later_position;
use kinesis_resharding::reconcile::{apply_plan, detect_resharding_event, partition_shards, plan_cycle};
use kinesis_resharding::shard::{SequenceNumberRange, Shard};
use kinesis_resharding::supervisor::{create_shard_consumer, ConsumerPhase, ConsumerSupervisor};

fn shard(id: &str, parent: Option<&str>, merge_parent: Option<&str>, closed: bool) -> Shard {
    Shard {
        shard_id: id.to_string(),
        parent_shard_id: parent.map(|p| p.to_string()),
        adjacent_parent_shard_id: merge_parent.map(|p| p.to_string()),
        sequence_number_range: SequenceNumberRange {
            starting_sequence_number: "0".to_string(),
            ending_sequence_number: if closed { Some("999".to_string()) } else { None },
        },
    }
}

fn checkpoint(entries: &[(&str, &str)]) -> Checkpoint {
    let mut c = Checkpoint::new();
    for (id, pos) in entries {
        c.insert(&id.to_string(), &pos.to_string());
    }
    c
}

fn position(c: &Checkpoint, id: &str) -> Option<String> {
    c.get(&id.to_string()).cloned()
}

fn lineage_of(shards: &[Shard]) -> kinesis_resharding::lineage::LineageGraph {
    let (active, closed) = partition_shards(shards);
    build_shard_lineage_map(&active, &closed)
}

fn closed_of(shards: &[Shard]) -> Vec<Shard> {
    partition_shards(shards).1
}

fn children(g: &kinesis_resharding::lineage::LineageGraph, p: &str) -> Vec<String> {
    g.children_of(&p.to_string()).cloned().unwrap_or_default()
}

#[test]
fn lineage_has_an_edge_for_each_parent_link() {
    let shards = vec![
        shard("s0", None, None, true),
        shard("s1", None, None, true),
        shard("s2", Some("s1"), Some("s0"), false),
        shard("s3", Some("s4"), None, false),
    ];
    let g = lineage_of(&shards);
    assert_eq!(children(&g, "s0"), vec!["s2".to_string()]);
    assert_eq!(children(&g, "s1"), vec!["s2".to_string()]);
    assert_eq!(children(&g, "s4"), vec!["s3".to_string()]);
    assert!(children(&g, "s2").is_empty());
    assert!(children(&g, "s3").is_empty());
}

#[test]
fn split_children_are_ordered_by_id() {
    let shards = vec![
        shard("s0", None, None, true),
        shard("s2", Some("s0"), None, false),
        shard("s1", Some("s0"), None, false),
        shard("s3", Some("s9"), Some("s9"), false),
    ];
    let g = lineage_of(&shards);
    assert_eq!(children(&g, "s0"), vec!["s1".to_string(), "s2".to_string()]);
    assert_eq!(children(&g, "s9"), vec!["s3".to_string()]);
}

#[test]
fn self_parent_is_invalid_lineage() {
    let shards = vec![shard("s0", None, None, false), shard("s1", None, Some("s1"), false)];
    match validate_lineage(&shards) {
        Err(LineageError::InvalidLineage(id)) => assert_eq!(id, "s1"),
        Ok(()) => panic!("self parent accepted"),
    }
    assert!(validate_lineage(&[shard("s1", Some("s0"), None, false)]).is_ok());
}

#[test]
fn migration_is_idempotent() {
    let shards = vec![
        shard("s0", None, None, true),
        shard("s1", Some("s0"), None, false),
        shard("s2", Some("s0"), None, false),
        shard("s3", None, None, true),
        shard("s4", None, None, false),
    ];
    let g = lineage_of(&shards);
    let closed = closed_of(&shards);
    let c = checkpoint(&[("s0", "100"), ("s3", "7"), ("s4", "12")]);
    let once = migrate_checkpoints(&c, &g, &closed);
    let twice = migrate_checkpoints(&once.checkpoint, &g, &closed);
    assert_eq!(once.checkpoint.len(), 3);
    assert_eq!(twice.checkpoint.len(), 3);
    for id in ["s1", "s2", "s4"] {
        assert_eq!(position(&twice.checkpoint, id), position(&once.checkpoint, id));
    }
    assert!(twice.stranded.is_empty());
}

#[test]
fn closed_parent_position_reaches_its_only_child() {
    let shards = vec![shard("p", None, None, true), shard("c", Some("p"), None, false)];
    let m = migrate_checkpoints(&checkpoint(&[("p", "4711")]), &lineage_of(&shards), &closed_of(&shards));
    assert_eq!(position(&m.checkpoint, "c"), Some("4711".to_string()));
    assert_eq!(position(&m.checkpoint, "p"), None);
    assert!(m.stranded.is_empty());
}

#[test]
fn merge_child_resumes_from_later_parent() {
    let shards = vec![
        shard("p1", None, None, true),
        shard("p2", None, None, true),
        shard("c", Some("p2"), Some("p1"), false),
    ];
    let g = lineage_of(&shards);
    let closed = closed_of(&shards);
    let m = migrate_checkpoints(&checkpoint(&[("p1", "10"), ("p2", "7")]), &g, &closed);
    assert_eq!(position(&m.checkpoint, "c"), Some("10".to_string()));
    assert_eq!(m.checkpoint.len(), 1);
    let m = migrate_checkpoints(&checkpoint(&[("p2", "7"), ("p1", "10")]), &g, &closed);
    assert_eq!(position(&m.checkpoint, "c"), Some("10".to_string()));
}

#[test]
fn child_keeps_own_later_position() {
    let shards = vec![shard("p", None, None, true), shard("c", Some("p"), None, false)];
    let g = lineage_of(&shards);
    let closed = closed_of(&shards);
    let m = migrate_checkpoints(&checkpoint(&[("p", "5"), ("c", "9")]), &g, &closed);
    assert_eq!(position(&m.checkpoint, "c"), Some("9".to_string()));
    let m = migrate_checkpoints(&checkpoint(&[("c", "3"), ("p", "5")]), &g, &closed);
    assert_eq!(position(&m.checkpoint, "c"), Some("5".to_string()));
}

#[test]
fn closed_shard_without_children_is_stranded() {
    let shards = vec![shard("s0", None, None, true), shard("s1", None, None, false)];
    let m = migrate_checkpoints(
        &checkpoint(&[("s0", "42"), ("s1", "3")]),
        &lineage_of(&shards),
        &closed_of(&shards),
    );
    assert_eq!(position(&m.checkpoint, "s0"), None);
    assert_eq!(position(&m.checkpoint, "s1"), Some("3".to_string()));
    assert_eq!(m.stranded, vec!["s0".to_string()]);
}

#[test]
fn closed_shard_with_only_closed_children_is_stranded() {
    let shards = vec![shard("s0", None, None, true), shard("s1", Some("s0"), None, true)];
    let m = migrate_checkpoints(&checkpoint(&[("s0", "42")]), &lineage_of(&shards), &closed_of(&shards));
    assert_eq!(m.checkpoint.len(), 0);
    assert_eq!(m.stranded, vec!["s0".to_string()]);
}

#[test]
fn split_scenario_moves_consumers_to_children() {
    let mut supervisor = ConsumerSupervisor::new();
    let before = vec![shard("s0", None, None, false)];
    let first = plan_cycle(&before, &checkpoint(&[("s0", "100")]), &supervisor).ok().unwrap();
    apply_plan(&mut supervisor, &first);
    assert!(supervisor.is_active(&"s0".to_string()));
    assert_eq!(first.to_start[0].from_position, Some("100".to_string()));

    let after = vec![
        shard("s0", None, None, true),
        shard("s1", Some("s0"), None, false),
        shard("s2", Some("s0"), None, false),
    ];
    let plan = plan_cycle(&after, &first.checkpoint, &supervisor).ok().unwrap();
    assert_eq!(plan.checkpoint.len(), 2);
    assert_eq!(position(&plan.checkpoint, "s1"), Some("100".to_string()));
    assert_eq!(position(&plan.checkpoint, "s2"), Some("100".to_string()));
    assert_eq!(plan.to_stop, vec!["s0".to_string()]);
    apply_plan(&mut supervisor, &plan);
    supervisor.remove_stopped(&"s0".to_string());
    assert!(supervisor.is_active(&"s1".to_string()));
    assert!(supervisor.is_active(&"s2".to_string()));
    assert!(!supervisor.is_active(&"s0".to_string()));
    assert!(!supervisor.is_tracked(&"s0".to_string()));
    for c in &supervisor.consumers {
        assert_eq!(c.current_position, Some("100".to_string()));
    }
}

#[test]
fn merge_scenario_takes_later_parent_position() {
    let shards = vec![
        shard("s0", None, None, true),
        shard("s1", None, None, true),
        shard("s2", Some("s1"), Some("s0"), false),
    ];
    let plan = plan_cycle(&shards, &checkpoint(&[("s0", "50"), ("s1", "80")]), &ConsumerSupervisor::new())
        .ok()
        .unwrap();
    assert_eq!(plan.checkpoint.len(), 1);
    assert_eq!(position(&plan.checkpoint, "s2"), Some("80".to_string()));
    assert_eq!(plan.to_start.len(), 1);
    assert_eq!(plan.to_start[0].shard_id, "s2");
    assert_eq!(plan.to_start[0].from_position, Some("80".to_string()));
}

#[test]
fn plan_rejects_invalid_lineage() {
    let shards = vec![shard("s0", Some("s0"), None, false)];
    assert!(matches!(
        plan_cycle(&shards, &Checkpoint::new(), &ConsumerSupervisor::new()),
        Err(LineageError::InvalidLineage(_))
    ));
}

#[test]
fn child_of_open_parent_starts_at_parent_position() {
    let shards = vec![shard("s0", None, None, false), shard("s1", Some("s0"), None, false)];
    let plan = plan_cycle(&shards, &checkpoint(&[("s0", "30")]), &ConsumerSupervisor::new()).ok().unwrap();
    assert_eq!(plan.to_start.len(), 2);
    assert_eq!(plan.to_start[1].shard_id, "s1");
    assert_eq!(plan.to_start[1].from_position, Some("30".to_string()));
    let orphan = vec![shard("s5", None, None, false)];
    let plan = plan_cycle(&orphan, &Checkpoint::new(), &ConsumerSupervisor::new()).ok().unwrap();
    assert_eq!(plan.to_start[0].from_position, None);
}

#[test]
fn resharding_is_detected_by_open_set() {
    let shards = vec![
        shard("s0", None, None, true),
        shard("s1", Some("s0"), None, false),
        shard("s2", Some("s0"), None, false),
    ];
    assert!(detect_resharding_event(&["s0".to_string()], &shards));
    assert!(!detect_resharding_event(&["s2".to_string(), "s1".to_string()], &shards));
    assert!(detect_resharding_event(&["s1".to_string()], &shards));
    assert!(!detect_resharding_event(&[], &[]));
}

#[test]
fn positions_compare_as_sequence_numbers() {
    let p = |s: &str| s.to_string();
    assert!(is_later_position(&p("100"), &p("80")));
    assert!(!is_later_position(&p("80"), &p("100")));
    assert!(is_later_position(&p("81"), &p("80")));
    assert!(!is_later_position(&p("80"), &p("80")));
    assert!(!is_later_position(&p(""), &p("0")));
}

#[test]
fn supervisor_start_and_stop_are_idempotent() {
    let mut s = ConsumerSupervisor::new();
    let id = "s7".to_string();
    s.start(&id, Some("1".to_string()));
    s.start(&id, Some("2".to_string()));
    assert_eq!(s.consumers.len(), 1);
    assert_eq!(s.consumers[0].current_position, Some("1".to_string()));
    assert_eq!(s.consumers[0].phase, ConsumerPhase::Pending);
    s.mark_running(&id);
    assert_eq!(s.consumers[0].phase, ConsumerPhase::Running);
    s.record_progress(&id, "5".to_string(), 77);
    assert_eq!(s.consumers[0].current_position, Some("5".to_string()));
    assert_eq!(s.consumers[0].last_activity_ms, 77);
    s.stop(&id);
    s.stop(&id);
    assert_eq!(s.consumers[0].phase, ConsumerPhase::Draining);
    assert!(!s.is_active(&id));
    s.stop(&"absent".to_string());
    s.remove_stopped(&id);
    assert!(s.consumers.is_empty());
}

#[test]
fn created_consumer_is_pending() {
    let c = create_shard_consumer("s3", Some("9".to_string()));
    assert_eq!(c.shard_id, "s3");
    assert_eq!(c.current_position, Some("9".to_string()));
    assert_eq!(c.phase, ConsumerPhase::Pending);
}

#[test]
fn backoff_doubles_up_to_cap_and_degrades() {
    let policy = BackoffPolicy { base_delay_ms: 100, max_delay_ms: 500, degraded_after: 3 };
    let mut f = FetchState::new();
    let d: Vec<(u64, bool)> = (0..5)
        .map(|_| {
            let r = f.on_fetch_failure(&policy);
            (r.delay_ms, r.degraded)
        })
        .collect();
    assert_eq!(d, vec![(100, false), (200, false), (400, true), (500, true), (500, true)]);
    f.on_fetch_success();
    assert_eq!(f.consecutive_failures, 0);
    assert_eq!(f.on_fetch_failure(&policy).delay_ms, 100);
    let huge = BackoffPolicy { base_delay_ms: u64::MAX - 1, max_delay_ms: u64::MAX, degraded_after: 1 };
    let mut g = FetchState { consecutive_failures: 3 };
    assert_eq!(g.on_fetch_failure(&huge).delay_ms, u64::MAX);
    assert_eq!(next_cycle_delay(30_000, false), 30_000);
    assert_eq!(next_cycle_delay(30_000, true), 0);
}

#[test]
fn position_passes_through_closed_child_to_open_grandchild() {
    let shards = vec![
        shard("p", None, None, true),
        shard("q", Some("p"), None, true),
        shard("d", Some("q"), None, false),
    ];
    let m = migrate_checkpoints(&checkpoint(&[("p", "40")]), &lineage_of(&shards), &closed_of(&shards));
    assert_eq!(m.checkpoint.len(), 1);
    assert_eq!(position(&m.checkpoint, "d"), Some("40".to_string()));
    assert!(m.stranded.is_empty());
}

#[test]
fn chain_through_closed_shards_keeps_latest_position() {
    let shards = vec![
        shard("p", None, None, true),
        shard("q", Some("p"), None, true),
        shard("r", Some("q"), None, true),
        shard("d", Some("r"), None, false),
        shard("e", Some("q"), None, false),
    ];
    let plan = plan_cycle(
        &shards,
        &checkpoint(&[("p", "90"), ("r", "120"), ("e", "5")]),
        &ConsumerSupervisor::new(),
    )
    .ok()
    .unwrap();
    assert_eq!(plan.checkpoint.len(), 2);
    assert_eq!(position(&plan.checkpoint, "d"), Some("120".to_string()));
    assert_eq!(position(&plan.checkpoint, "e"), Some("90".to_string()));
    assert!(plan.stranded.is_empty());
}

#[test]
fn closed_chain_without_open_end_is_stranded() {
    let shards = vec![
        shard("p", None, None, true),
        shard("q", Some("p"), None, true),
        shard("r", Some("q"), None, true),
    ];
    let m = migrate_checkpoints(&checkpoint(&[("p", "1"), ("q", "2")]), &lineage_of(&shards), &closed_of(&shards));
    assert_eq!(m.checkpoint.len(), 0);
    assert_eq!(m.stranded, vec!["p".to_string(), "q".to_string()]);
}

#[test]
fn applied_plan_starts_consumers_at_planned_positions() {
    let mut supervisor = ConsumerSupervisor::new();
    supervisor.start(&"s0".to_string(), Some("7".to_string()));
    supervisor.mark_running(&"s0".to_string());
    let shards = vec![
        shard("s0", None, None, true),
        shard("s1", Some("s0"), None, false),
        shard("s2", None, None, false),
    ];
    let plan = plan_cycle(&shards, &checkpoint(&[("s0", "70")]), &supervisor).ok().unwrap();
    apply_plan(&mut supervisor, &plan);
    assert_eq!(supervisor.consumers.len(), 3);
    assert_eq!(supervisor.consumers[0].phase, ConsumerPhase::Draining);
    assert_eq!(supervisor.consumers[0].current_position, Some("7".to_string()));
    assert_eq!(supervisor.consumers[1].shard_id, "s1");
    assert_eq!(supervisor.consumers[1].current_position, Some("70".to_string()));
    assert_eq!(supervisor.consumers[1].phase, ConsumerPhase::Pending);
    assert_eq!(supervisor.consumers[2].shard_id, "s2");
    assert_eq!(supervisor.consumers[2].current_position, None);
}
