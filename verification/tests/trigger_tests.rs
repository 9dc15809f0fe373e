use cthulu::seen::SeenSet;
use cthulu::trigger::{
    backoff_secs, timer_context, Phase, PollingTrigger, Step, MAX_SEED_ATTEMPTS,
};

#[test]
fn polling_dedup_scenario() {
    let mut trigger = PollingTrigger::new(vec!["owner/repo".to_string()]);
    assert_eq!(trigger.next_step(), Step::Fetch { scope: 0 });
    assert_eq!(trigger.phase(), Phase::Seeding);

    // Seed returns {1,2,3}.
    assert!(trigger.fetched(&[1, 2, 3]).is_empty());
    assert_eq!(trigger.phase(), Phase::Polling);
    assert_eq!(trigger.next_step(), Step::AwaitTick);

    // Tick 1 returns {1,2,3}: nothing to dispatch.
    trigger.woke();
    assert_eq!(trigger.next_step(), Step::Fetch { scope: 0 });
    assert_eq!(trigger.fetched(&[1, 2, 3]), Vec::<u64>::new());
    assert_eq!(trigger.next_step(), Step::AwaitTick);

    // Tick 2 returns {1,2,3,4,5}: exactly 4 and 5.
    trigger.woke();
    assert_eq!(trigger.fetched(&[1, 2, 3, 4, 5]), vec![4, 5]);

    // Tick 3 returns {1,4}: nothing.
    trigger.woke();
    assert_eq!(trigger.fetched(&[1, 4]), Vec::<u64>::new());

    for item in 1..=5u64 {
        assert!(trigger.has_seen("owner/repo", item));
    }
    assert!(!trigger.has_seen("owner/repo", 6));
}

#[test]
fn item_that_reappears_is_not_dispatched_again() {
    let mut trigger = PollingTrigger::new(vec!["s".to_string()]);
    trigger.fetched(&[]);
    trigger.woke();
    assert_eq!(trigger.fetched(&[7]), vec![7]);
    trigger.woke();
    assert_eq!(trigger.fetched(&[]), Vec::<u64>::new());
    trigger.woke();
    assert_eq!(trigger.fetched(&[7]), Vec::<u64>::new());
}

#[test]
fn new_items_keep_fetch_order_and_repeat_once() {
    let mut trigger = PollingTrigger::new(vec!["s".to_string()]);
    trigger.fetched(&[2]);
    trigger.woke();
    assert_eq!(trigger.fetched(&[9, 2, 5, 9, 1, 5]), vec![9, 5, 1]);
}

#[test]
fn seeding_backs_off_and_gives_up_after_ten_attempts() {
    let mut trigger =
        PollingTrigger::new(vec!["bad".to_string(), "good".to_string()]);
    let expected = [2u64, 4, 8, 16, 32, 32, 32, 32, 32];
    for seconds in expected {
        assert_eq!(trigger.next_step(), Step::Fetch { scope: 0 });
        trigger.fetch_failed();
        assert_eq!(trigger.next_step(), Step::Sleep { seconds });
        trigger.woke();
    }
    // The tenth failure gives the scope up without another sleep.
    assert_eq!(trigger.next_step(), Step::Fetch { scope: 0 });
    trigger.fetch_failed();
    assert_eq!(trigger.next_step(), Step::Fetch { scope: 1 });
    assert!(!trigger.is_seeded("bad"));

    trigger.fetched(&[1]);
    assert_eq!(trigger.phase(), Phase::Polling);
    assert!(trigger.is_seeded("good"));

    // Only the seeded scope is polled.
    trigger.woke();
    assert_eq!(trigger.next_step(), Step::Fetch { scope: 1 });
    assert_eq!(trigger.fetched(&[1, 2]), vec![2]);
    assert_eq!(trigger.next_step(), Step::AwaitTick);
}

#[test]
fn retry_count_starts_anew_for_every_scope() {
    let mut trigger = PollingTrigger::new(vec!["a".to_string(), "b".to_string()]);
    trigger.fetch_failed();
    assert_eq!(trigger.next_step(), Step::Sleep { seconds: 2 });
    trigger.woke();
    trigger.fetch_failed();
    assert_eq!(trigger.next_step(), Step::Sleep { seconds: 4 });
    trigger.woke();
    trigger.fetched(&[]);
    assert_eq!(trigger.next_step(), Step::Fetch { scope: 1 });
    trigger.fetch_failed();
    assert_eq!(trigger.next_step(), Step::Sleep { seconds: 2 });
}

#[test]
fn failed_poll_is_tried_again_at_the_next_tick() {
    let mut trigger = PollingTrigger::new(vec!["a".to_string(), "b".to_string()]);
    trigger.fetched(&[1]);
    trigger.fetched(&[1]);
    trigger.woke();
    assert_eq!(trigger.next_step(), Step::Fetch { scope: 0 });
    trigger.fetch_failed();
    assert_eq!(trigger.next_step(), Step::Fetch { scope: 1 });
    assert_eq!(trigger.fetched(&[1, 3]), vec![3]);
    assert_eq!(trigger.next_step(), Step::AwaitTick);
    trigger.woke();
    assert_eq!(trigger.next_step(), Step::Fetch { scope: 0 });
    assert_eq!(trigger.fetched(&[1, 2]), vec![2]);
}

#[test]
fn trigger_without_scopes_only_waits() {
    let mut trigger = PollingTrigger::new(vec![]);
    assert_eq!(trigger.phase(), Phase::Polling);
    assert_eq!(trigger.next_step(), Step::AwaitTick);
    trigger.woke();
    assert_eq!(trigger.next_step(), Step::AwaitTick);
    assert!(trigger.fetched(&[1]).is_empty());
    assert_eq!(trigger.scope_count(), 0);
    assert!(trigger.scope_name(0).is_none());
}

#[test]
fn events_out_of_turn_change_nothing() {
    let mut trigger = PollingTrigger::new(vec!["a".to_string()]);
    trigger.woke();
    assert_eq!(trigger.next_step(), Step::Fetch { scope: 0 });
    trigger.fetched(&[1]);
    assert_eq!(trigger.next_step(), Step::AwaitTick);
    assert!(trigger.fetched(&[2]).is_empty());
    trigger.fetch_failed();
    assert_eq!(trigger.next_step(), Step::AwaitTick);
    assert!(!trigger.has_seen("a", 2));
}

#[test]
fn marked_item_is_not_dispatched() {
    let mut trigger = PollingTrigger::new(vec!["a".to_string()]);
    trigger.fetched(&[1]);
    trigger.mark_seen("a", 5);
    trigger.woke();
    assert_eq!(trigger.fetched(&[1, 5, 6]), vec![6]);
    assert_eq!(trigger.scope_name(0).unwrap(), "a");
}

#[test]
fn backoff_doubles_up_to_thirty_two_seconds() {
    assert_eq!(backoff_secs(1), 2);
    assert_eq!(backoff_secs(2), 4);
    assert_eq!(backoff_secs(3), 8);
    assert_eq!(backoff_secs(4), 16);
    assert_eq!(backoff_secs(5), 32);
    assert_eq!(backoff_secs(6), 32);
    assert_eq!(backoff_secs(9), 32);
    assert_eq!(MAX_SEED_ATTEMPTS, 10);
}

#[test]
fn seen_set_seed_replaces_and_observe_adds() {
    let mut seen = SeenSet::new();
    assert!(!seen.is_seeded("x"));
    seen.seed("x", &[1, 2]);
    assert!(seen.is_seeded("x"));
    assert!(seen.contains("x", 1));
    assert!(!seen.contains("y", 1));

    assert_eq!(seen.observe("x", &[2, 3, 3, 4]), vec![3, 4]);
    assert!(seen.contains("x", 1) && seen.contains("x", 3) && seen.contains("x", 4));

    seen.seed("x", &[9]);
    assert!(seen.contains("x", 9));
    assert!(!seen.contains("x", 1));

    assert_eq!(seen.observe("new", &[5]), vec![5]);
    assert!(seen.is_seeded("new"));
}

#[test]
fn seen_items_lists_each_item_once() {
    let mut trigger = PollingTrigger::new(vec!["a".to_string()]);
    trigger.fetched(&[3, 1, 3, 2]);
    trigger.woke();
    trigger.fetched(&[2, 9]);
    let mut items = trigger.seen_items("a");
    items.sort();
    assert_eq!(items, vec![1, 2, 3, 9]);
    assert!(trigger.seen_items("other").is_empty());
}

#[test]
fn timer_context_holds_the_time_of_the_firing() {
    assert_eq!(timer_context(None).len(), 0);
    let context = timer_context(Some("2024-05-01T00:00:00Z".to_string()));
    assert_eq!(context.len(), 1);
    assert_eq!(context.get("now").unwrap(), "2024-05-01T00:00:00Z");
}

#[test]
fn a_given_up_scope_is_not_polled_even_when_marked() {
    let mut trigger = PollingTrigger::new(vec!["bad".to_string(), "good".to_string()]);
    for _ in 0..9 {
        trigger.fetch_failed();
        trigger.woke();
    }
    trigger.fetch_failed();
    assert_eq!(trigger.next_step(), Step::Fetch { scope: 1 });
    // A manual run marks an item of the scope that was given up.
    trigger.mark_seen("bad", 1);
    assert!(trigger.is_seeded("bad"));
    assert!(trigger.fetched(&[4]).is_empty());
    assert_eq!(trigger.phase(), Phase::Polling);
    assert!(!trigger.is_polled(0));
    assert!(trigger.is_polled(1));
    assert!(!trigger.is_polled(2));

    // Tick after tick, only the seeded scope is fetched.
    for _ in 0..3 {
        trigger.woke();
        assert_eq!(trigger.next_step(), Step::Fetch { scope: 1 });
        trigger.fetched(&[4]);
        assert_eq!(trigger.next_step(), Step::AwaitTick);
    }
    assert!(!trigger.has_seen("bad", 7));
}

#[test]
fn of_two_scopes_of_one_name_only_the_seeded_one_is_polled() {
    let mut trigger = PollingTrigger::new(vec!["a".to_string(), "a".to_string()]);
    for _ in 0..9 {
        trigger.fetch_failed();
        trigger.woke();
    }
    trigger.fetch_failed();
    trigger.fetched(&[1]);
    trigger.woke();
    assert_eq!(trigger.next_step(), Step::Fetch { scope: 1 });
    assert_eq!(trigger.fetched(&[1, 2]), vec![2]);
    assert_eq!(trigger.next_step(), Step::AwaitTick);
}
