use qdrant_grouping::aggregator::{GroupsAggregator, Phase, RoundAction, RoundPolicy, StopReason};
use qdrant_grouping::group::Group;
use qdrant_grouping::session::aggregate_ranked;
use qdrant_grouping::types::{
    extract_key, AggregatorError, GroupKey, HashablePoint, PayloadField, PayloadValue,
    PointIdentity, ScoredPoint,
};

fn field(name: &str, value: PayloadValue) -> PayloadField {
    PayloadField { name: name.to_string(), value }
}

fn colored(id: u64, color: &str, score: i64) -> ScoredPoint {
    ScoredPoint {
        id,
        version: 0,
        score,
        payload: Some(vec![field("color", PayloadValue::Str(color.to_string()))]),
    }
}

fn with_payload(id: u64, score: i64, payload: Option<Vec<PayloadField>>) -> ScoredPoint {
    ScoredPoint { id, version: 0, score, payload }
}

fn text_key(s: &str) -> GroupKey {
    GroupKey::from_text(s.to_string())
}

fn ids(group: &Group) -> Vec<u64> {
    group.hits().iter().map(|p| p.id).collect()
}

fn one_round_policy() -> RoundPolicy {
    RoundPolicy { initial_factor: 1, growth_factor: 2, max_rounds: 1, max_examined: 1000 }
}

#[test]
fn scenario_two_colors_of_three() {
    let ranked = vec![
        colored(1, "red", 90),
        colored(2, "blue", 80),
        colored(3, "red", 70),
        colored(4, "green", 60),
    ];
    let groups =
        aggregate_ranked(2, 2, "color".to_string(), RoundPolicy::default_policy(), &ranked)
            .unwrap();
    assert_eq!(groups.len(), 2);
    assert_eq!(groups[0].key(), &text_key("red"));
    assert_eq!(ids(&groups[0]), vec![1, 3]);
    assert!(groups[0].is_full());
    assert_eq!(groups[1].key(), &text_key("blue"));
    assert_eq!(ids(&groups[1]), vec![2]);
    assert!(!groups[1].is_full());
}

#[test]
fn scenario_stops_on_exhaustion_not_enough_groups() {
    let ranked = vec![
        colored(1, "red", 90),
        colored(2, "blue", 80),
        colored(3, "red", 70),
        colored(4, "green", 60),
    ];
    let mut agg = GroupsAggregator::new(2, 2, "color".to_string()).unwrap();
    let n = agg.start();
    assert_eq!(n, 8);
    assert_eq!(agg.phase(), Phase::Running);
    let action = agg.on_batch(&ranked, false);
    assert_eq!(action, RoundAction::Finish(StopReason::Exhausted));
    assert_eq!(agg.phase(), Phase::Done);
    assert_eq!(agg.full_groups(), 1);
}

#[test]
fn new_green_key_is_refused_once_limit_groups_exist() {
    let mut agg = GroupsAggregator::new(2, 2, "color".to_string()).unwrap();
    assert_eq!(agg.add_point(&colored(1, "red", 90)), Ok(()));
    assert_eq!(agg.add_point(&colored(2, "blue", 80)), Ok(()));
    assert_eq!(agg.add_point(&colored(4, "green", 60)), Err(AggregatorError::AllGroupsFull));
    assert_eq!(agg.add_point(&colored(3, "red", 70)), Ok(()));
    assert_eq!(agg.add_point(&colored(5, "red", 65)), Err(AggregatorError::GroupFull));
}

#[test]
fn unkeyed_candidates_are_dropped_and_not_recorded() {
    let mut agg = GroupsAggregator::new(3, 2, "color".to_string()).unwrap();
    let no_field = with_payload(7, 95, Some(vec![]));
    let no_payload = with_payload(8, 94, None);
    let wrong_type = with_payload(9, 93, Some(vec![field("color", PayloadValue::Bool(true))]));
    let array = with_payload(10, 92, Some(vec![field("color", PayloadValue::Array)]));
    assert_eq!(agg.add_point(&no_field), Err(AggregatorError::KeyNotFound));
    assert_eq!(agg.add_point(&no_payload), Err(AggregatorError::KeyNotFound));
    assert_eq!(agg.add_point(&wrong_type), Err(AggregatorError::BadKeyType));
    assert_eq!(agg.add_point(&array), Err(AggregatorError::BadKeyType));
    // the same identities, now with a key, are still accepted
    assert_eq!(agg.add_point(&colored(7, "red", 95)), Ok(()));
    assert_eq!(agg.add_point(&colored(9, "red", 93)), Ok(()));
    let groups = agg.into_groups();
    assert_eq!(groups.len(), 1);
    assert_eq!(ids(&groups[0]), vec![7, 9]);
}

#[test]
fn numeric_payload_value_is_a_key() {
    let ranked = vec![
        with_payload(1, 50, Some(vec![field("color", PayloadValue::PosInt(42))])),
        with_payload(2, 40, Some(vec![])),
        with_payload(3, 30, Some(vec![field("color", PayloadValue::NegInt(-1))])),
    ];
    let groups =
        aggregate_ranked(5, 1, "color".to_string(), RoundPolicy::default_policy(), &ranked)
            .unwrap();
    assert_eq!(groups.len(), 2);
    assert_eq!(groups[0].key(), &GroupKey::from_i64(42));
    assert_eq!(groups[1].key(), &GroupKey::from_i64(-1));
}

#[test]
fn zero_limit_or_group_size_is_invalid() {
    assert!(matches!(
        GroupsAggregator::new(0, 2, "color".to_string()),
        Err(AggregatorError::InvalidRequest)
    ));
    assert!(matches!(
        GroupsAggregator::new(2, 0, "color".to_string()),
        Err(AggregatorError::InvalidRequest)
    ));
    let ranked = vec![colored(1, "red", 90)];
    assert!(matches!(
        aggregate_ranked(0, 2, "color".to_string(), RoundPolicy::default_policy(), &ranked),
        Err(AggregatorError::InvalidRequest)
    ));
    assert!(matches!(
        aggregate_ranked(2, 0, "color".to_string(), RoundPolicy::default_policy(), &ranked),
        Err(AggregatorError::InvalidRequest)
    ));
}

#[test]
fn short_round_ends_aggregation() {
    let mut agg = GroupsAggregator::new(3, 3, "color".to_string()).unwrap();
    let n = agg.start();
    assert_eq!(n, 18);
    let batch = vec![colored(1, "red", 9)];
    assert_eq!(agg.on_batch(&batch, false), RoundAction::Finish(StopReason::Exhausted));
}

#[test]
fn full_round_asks_for_twice_as_many() {
    let policy = RoundPolicy { initial_factor: 1, growth_factor: 2, max_rounds: 5, max_examined: 100 };
    let mut agg = GroupsAggregator::with_policy(2, 2, "color".to_string(), policy).unwrap();
    assert_eq!(agg.start(), 4);
    let batch = vec![colored(1, "red", 9), colored(2, "red", 8), colored(3, "red", 7), colored(4, "red", 6)];
    assert_eq!(agg.on_batch(&batch, false), RoundAction::Search(8));
    assert_eq!(agg.requested(), 8);
}

#[test]
fn enough_full_groups_stop_first() {
    let mut agg = GroupsAggregator::with_policy(1, 1, "color".to_string(), one_round_policy()).unwrap();
    assert_eq!(agg.start(), 1);
    let batch = vec![colored(1, "red", 9)];
    assert_eq!(agg.on_batch(&batch, true), RoundAction::Finish(StopReason::EnoughGroups));
}

#[test]
fn round_budget_stops_aggregation() {
    let mut agg = GroupsAggregator::with_policy(2, 1, "color".to_string(), one_round_policy()).unwrap();
    assert_eq!(agg.start(), 2);
    let batch = vec![colored(1, "red", 9), colored(2, "red", 8)];
    assert_eq!(agg.on_batch(&batch, false), RoundAction::Finish(StopReason::BudgetSpent));
}

#[test]
fn deadline_stops_aggregation() {
    let policy = RoundPolicy { initial_factor: 1, growth_factor: 2, max_rounds: 5, max_examined: 100 };
    let mut agg = GroupsAggregator::with_policy(2, 1, "color".to_string(), policy).unwrap();
    assert_eq!(agg.start(), 2);
    let batch = vec![colored(1, "red", 9), colored(2, "red", 8)];
    assert_eq!(agg.on_batch(&batch, true), RoundAction::Finish(StopReason::Deadline));
}

#[test]
fn rounds_do_not_double_count_repeated_points() {
    let policy = RoundPolicy { initial_factor: 1, growth_factor: 2, max_rounds: 5, max_examined: 100 };
    let mut agg = GroupsAggregator::with_policy(2, 3, "color".to_string(), policy).unwrap();
    assert_eq!(agg.start(), 6);
    let round1 = vec![
        colored(1, "red", 90),
        colored(2, "red", 85),
        colored(3, "blue", 80),
        colored(4, "red", 70),
        with_payload(5, 65, None),
        colored(6, "green", 60),
    ];
    assert_eq!(agg.on_batch(&round1, false), RoundAction::Search(12));
    let mut round2 = round1.clone();
    round2.push(colored(7, "blue", 50));
    round2.push(colored(8, "blue", 40));
    round2.push(colored(9, "red", 30));
    assert_eq!(agg.on_batch(&round2, false), RoundAction::Finish(StopReason::EnoughGroups));
    let groups = agg.into_groups();
    assert_eq!(groups.len(), 2);
    assert_eq!(ids(&groups[0]), vec![1, 2, 4]);
    assert_eq!(ids(&groups[1]), vec![3, 7, 8]);
    let mut all: Vec<PointIdentity> = Vec::new();
    for g in &groups {
        assert!(g.len() <= 3);
        for w in g.hits().windows(2) {
            assert!(w[0].score >= w[1].score);
        }
        for p in g.hits() {
            assert!(!all.contains(&p.identity()));
            all.push(p.identity());
        }
    }
}

#[test]
fn groups_come_in_descending_top_score() {
    let mut agg = GroupsAggregator::new(4, 2, "color".to_string()).unwrap();
    for p in [colored(1, "a", 10), colored(2, "b", 30), colored(3, "c", 20), colored(4, "d", 30)] {
        assert_eq!(agg.add_point(&p), Ok(()));
    }
    let groups = agg.into_groups();
    let keys: Vec<&GroupKey> = groups.iter().map(|g| g.key()).collect();
    assert_eq!(keys, vec![&text_key("b"), &text_key("d"), &text_key("c"), &text_key("a")]);
}

#[test]
fn group_keeps_score_order_and_capacity() {
    let mut g = Group::new(text_key("x"), 3);
    assert_eq!(g.try_insert(HashablePoint { id: 5, version: 0, score: 10 }), Ok(()));
    assert_eq!(g.try_insert(HashablePoint { id: 6, version: 0, score: 30 }), Ok(()));
    assert_eq!(g.try_insert(HashablePoint { id: 4, version: 0, score: 10 }), Ok(()));
    assert_eq!(ids(&g), vec![6, 4, 5]);
    assert!(g.is_full());
    assert_eq!(g.top_score(), 30);
    assert_eq!(
        g.try_insert(HashablePoint { id: 7, version: 0, score: 99 }),
        Err(AggregatorError::GroupFull)
    );
    assert_eq!(ids(&g), vec![6, 4, 5]);
}

#[test]
fn group_ignores_a_repeated_identity() {
    let mut g = Group::new(text_key("x"), 3);
    assert_eq!(g.try_insert(HashablePoint { id: 1, version: 2, score: 10 }), Ok(()));
    assert_eq!(g.try_insert(HashablePoint { id: 1, version: 2, score: 50 }), Ok(()));
    assert_eq!(g.len(), 1);
    assert_eq!(g.hits()[0].score, 10);
    assert_eq!(g.try_insert(HashablePoint { id: 1, version: 3, score: 50 }), Ok(()));
    assert_eq!(g.len(), 2);
}

#[test]
fn same_source_twice_gives_same_output() {
    let ranked: Vec<ScoredPoint> = (0..40u64)
        .map(|i| colored(i, ["a", "b", "c", "d", "e"][(i * 7 % 5) as usize], 1000 - (i as i64) * 3))
        .collect();
    let policy = RoundPolicy { initial_factor: 1, growth_factor: 2, max_rounds: 6, max_examined: 1000 };
    let first = aggregate_ranked(3, 4, "color".to_string(), policy, &ranked).unwrap();
    let second = aggregate_ranked(3, 4, "color".to_string(), policy, &ranked).unwrap();
    assert_eq!(first.len(), second.len());
    for (a, b) in first.iter().zip(second.iter()) {
        assert_eq!(a.key(), b.key());
        assert_eq!(a.hits(), b.hits());
    }
}

#[test]
fn minimal_point_drops_payload() {
    let p = ScoredPoint {
        id: 11,
        version: 3,
        score: -4,
        payload: Some(vec![field("color", PayloadValue::Str("red".to_string()))]),
    };
    let h = HashablePoint::minimal_from(&p);
    assert_eq!(h, HashablePoint { id: 11, version: 3, score: -4 });
    assert_eq!(h.identity(), PointIdentity { id: 11, version: 3 });
}

#[test]
fn key_extraction_outcomes() {
    let payload = Some(vec![
        field("size", PayloadValue::Float(4.5f64.to_bits())),
        field("color", PayloadValue::Str("red".to_string())),
        field("tags", PayloadValue::Object),
        field("none", PayloadValue::Null),
    ]);
    assert_eq!(extract_key(&payload, &"color".to_string()), Ok(text_key("red")));
    assert_eq!(extract_key(&payload, &"size".to_string()), Ok(GroupKey::Float(4.5f64.to_bits())));
    assert_eq!(extract_key(&payload, &"tags".to_string()), Err(AggregatorError::BadKeyType));
    assert_eq!(extract_key(&payload, &"none".to_string()), Err(AggregatorError::BadKeyType));
    assert_eq!(extract_key(&payload, &"shape".to_string()), Err(AggregatorError::KeyNotFound));
    assert_eq!(extract_key(&None, &"color".to_string()), Err(AggregatorError::KeyNotFound));
}

#[test]
fn key_conversions() {
    assert_eq!(GroupKey::try_from_value(&PayloadValue::PosInt(3)), Ok(GroupKey::PosInt(3)));
    assert_eq!(GroupKey::from_i64(3), GroupKey::PosInt(3));
    assert_eq!(GroupKey::from_i64(-3), GroupKey::NegInt(-3));
    assert_ne!(GroupKey::from_i64(3), text_key("3"));
    assert_eq!(
        GroupKey::try_from_value(&PayloadValue::Bool(false)),
        Err(AggregatorError::BadKeyType)
    );
}

#[test]
fn source_failure_fails_the_aggregation() {
    let mut agg = GroupsAggregator::new(2, 2, "color".to_string()).unwrap();
    agg.start();
    assert_eq!(agg.on_source_failure(), AggregatorError::SourceFailure);
    assert_eq!(agg.phase(), Phase::Failed);
}

#[test]
fn observe_reports_first_sighting_only() {
    let mut seen = qdrant_grouping::dedup::SeenIdentities::new();
    let a = PointIdentity { id: 1, version: 1 };
    let b = PointIdentity { id: 1, version: 2 };
    assert!(seen.observe(a));
    assert!(!seen.observe(a));
    assert!(seen.observe(b));
    assert!(seen.contains(a));
    assert_eq!(seen.len(), 2);
}

#[test]
fn handing_in_a_round_twice_changes_nothing() {
    let batch = vec![
        colored(1, "red", 90),
        colored(2, "blue", 80),
        colored(3, "red", 70),
        colored(4, "green", 60),
        colored(5, "red", 50),
        with_payload(6, 40, None),
    ];
    let mut once = GroupsAggregator::new(2, 2, "color".to_string()).unwrap();
    once.add_points(&batch);
    let mut twice = GroupsAggregator::new(2, 2, "color".to_string()).unwrap();
    twice.add_points(&batch);
    twice.add_points(&batch);
    let once = once.into_groups();
    let twice = twice.into_groups();
    assert_eq!(once.len(), twice.len());
    for (a, b) in once.iter().zip(twice.iter()) {
        assert_eq!(a.key(), b.key());
        assert_eq!(a.hits(), b.hits());
    }
    assert_eq!(ids(&twice[0]), vec![1, 3]);
    assert_eq!(ids(&twice[1]), vec![2]);
}
