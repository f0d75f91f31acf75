use keylog::aggregator::{Aggregator, FLUSH_INTERVAL_MS, FLUSH_SIZE};
use keylog::date::Date;
use keylog::listener::{
    get_running_flag, is_listener_running, start_global_listener, stop_global_listener,
    CaptureError, InputEvent,
};
use keylog::store::CounterStore;

fn d(year: u32, month: u32, day: u32) -> Date {
    Date { year, month, day }
}

fn key(name: &str) -> InputEvent {
    InputEvent::KeyPress { key_name: name.to_string(), key_code: None }
}

fn click(button: &str) -> InputEvent {
    InputEvent::MouseClick { button: button.to_string() }
}

#[test]
fn scenario_three_a_two_b_one_left_click() {
    let mut store = CounterStore::new();
    let mut agg = Aggregator::new();
    for ev in [key("A"), key("A"), key("A"), key("B"), key("B"), click("Left")] {
        agg.offer(ev);
    }
    agg.flush(&mut store, d(2024, 1, 1));
    assert_eq!(agg.buffered(), 0);
    assert_eq!(agg.dropped_increments(), 0);

    let stats = store.get_date_stats(d(2024, 1, 1));
    assert_eq!(stats.date, "2024-01-01");
    assert_eq!(stats.total_keys, 5);
    assert_eq!(stats.total_clicks, 1);
    assert_eq!(stats.key_stats.len(), 2);
    assert_eq!(stats.key_stats[0].key_name, "A");
    assert_eq!(stats.key_stats[0].count, 3);
    assert_eq!(stats.key_stats[1].key_name, "B");
    assert_eq!(stats.key_stats[1].count, 2);
    assert_eq!(stats.mouse_stats.len(), 1);
    assert_eq!(stats.mouse_stats[0].button, "Left");
    assert_eq!(stats.mouse_stats[0].count, 1);
}

#[test]
fn repeated_presses_accumulate_and_totals_match() {
    let mut store = CounterStore::new();
    let day = d(2024, 3, 15);
    for _ in 0..7 {
        store.increment_key(day, "Space", Some(57)).unwrap();
    }
    let stats = store.get_date_stats(day);
    assert_eq!(stats.total_keys, 7);
    assert_eq!(stats.key_stats.len(), 1);
    assert_eq!(stats.key_stats[0].count, 7);
    let per_key_sum: i64 = stats.key_stats.iter().map(|k| k.count).sum();
    assert_eq!(stats.total_keys, per_key_sum);
}

#[test]
fn double_delivery_double_counts() {
    let mut store = CounterStore::new();
    let day = d(2024, 1, 2);
    store.increment_key(day, "Q", None).unwrap();
    store.increment_key(day, "Q", None).unwrap();
    let stats = store.get_date_stats(day);
    assert_eq!(stats.key_stats[0].count, 2);
    assert_eq!(stats.total_keys, 2);
}

#[test]
fn key_code_is_last_seen() {
    let mut store = CounterStore::new();
    let day = d(2024, 1, 2);
    store.increment_key(day, "Unknown(250)", Some(250)).unwrap();
    store.increment_key(day, "Unknown(250)", Some(251)).unwrap();
    let stats = store.get_date_stats(day);
    assert_eq!(stats.key_stats[0].key_code, Some(251));
}

#[test]
fn untouched_day_answers_zeros_not_an_error() {
    let store = CounterStore::new();
    let stats = store.get_date_stats(d(2024, 6, 1));
    assert_eq!(stats.total_keys, 0);
    assert_eq!(stats.total_clicks, 0);
    assert!(stats.key_stats.is_empty());
    assert!(stats.mouse_stats.is_empty());
    assert!(store.get_top_keys(d(2024, 6, 1), 10).is_empty());
    assert!(store.get_date_range_summary(d(2024, 1, 1), d(2024, 12, 31)).is_empty());
}

#[test]
fn flush_triggers_on_size_or_time_only() {
    let mut agg = Aggregator::new();
    assert!(!agg.should_flush(FLUSH_INTERVAL_MS + 1000));
    agg.offer(key("A"));
    assert!(!agg.should_flush(0));
    assert!(!agg.should_flush(FLUSH_INTERVAL_MS - 1));
    assert!(agg.should_flush(FLUSH_INTERVAL_MS));
    for _ in 1..FLUSH_SIZE - 1 {
        agg.offer(key("A"));
    }
    assert_eq!(agg.buffered(), FLUSH_SIZE - 1);
    assert!(!agg.should_flush(0));
    agg.offer(key("A"));
    assert!(agg.should_flush(0));
}

#[test]
fn single_day_range_equals_day_query() {
    let mut store = CounterStore::new();
    let day = d(2024, 1, 1);
    let other = d(2024, 1, 2);
    for _ in 0..3 {
        store.increment_key(day, "A", None).unwrap();
    }
    store.increment_key(day, "B", None).unwrap();
    store.increment_mouse(day, "Left").unwrap();
    store.increment_key(other, "C", None).unwrap();

    let by_day = store.get_date_stats(day);
    let by_range = store.get_range_stats(day, day);
    assert_eq!(by_range.total_keys, by_day.total_keys);
    assert_eq!(by_range.total_clicks, by_day.total_clicks);
    assert_eq!(by_range.key_stats.len(), by_day.key_stats.len());
    for (a, b) in by_range.key_stats.iter().zip(by_day.key_stats.iter()) {
        assert_eq!(a.key_name, b.key_name);
        assert_eq!(a.key_code, b.key_code);
        assert_eq!(a.count, b.count);
    }
    assert_eq!(by_range.mouse_stats.len(), by_day.mouse_stats.len());
    for (a, b) in by_range.mouse_stats.iter().zip(by_day.mouse_stats.iter()) {
        assert_eq!(a.button, b.button);
        assert_eq!(a.count, b.count);
    }
}

#[test]
fn range_aggregates_across_days() {
    let mut store = CounterStore::new();
    let day1 = d(2024, 1, 1);
    let day2 = d(2024, 1, 2);
    let day3 = d(2024, 1, 5);
    store.increment_key(day1, "A", None).unwrap();
    store.increment_key(day2, "A", Some(30)).unwrap();
    store.increment_key(day2, "A", Some(30)).unwrap();
    store.increment_key(day1, "B", None).unwrap();
    store.increment_mouse(day1, "Left").unwrap();
    store.increment_mouse(day2, "Left").unwrap();
    store.increment_mouse(day2, "Right").unwrap();
    store.increment_key(day3, "A", None).unwrap();

    let stats = store.get_range_stats(day1, day2);
    assert_eq!(stats.date, "2024-01-01 to 2024-01-02");
    assert_eq!(stats.total_keys, 4);
    assert_eq!(stats.total_clicks, 3);
    assert_eq!(stats.key_stats.len(), 2);
    assert_eq!(stats.key_stats[0].key_name, "A");
    assert_eq!(stats.key_stats[0].count, 3);
    assert_eq!(stats.key_stats[0].key_code, Some(30));
    assert_eq!(stats.key_stats[1].key_name, "B");
    assert_eq!(stats.key_stats[1].count, 1);
    assert_eq!(stats.mouse_stats.len(), 2);
    assert_eq!(stats.mouse_stats[0].button, "Left");
    assert_eq!(stats.mouse_stats[0].count, 2);
    assert_eq!(stats.mouse_stats[1].button, "Right");
    assert_eq!(stats.mouse_stats[1].count, 1);
}

#[test]
fn range_summary_is_newest_first() {
    let mut store = CounterStore::new();
    store.increment_key(d(2024, 1, 1), "A", None).unwrap();
    store.increment_key(d(2024, 1, 3), "A", None).unwrap();
    store.increment_key(d(2024, 1, 3), "B", None).unwrap();
    store.increment_mouse(d(2024, 1, 2), "Left").unwrap();
    store.increment_key(d(2024, 2, 1), "A", None).unwrap();

    let rows = store.get_date_range_summary(d(2024, 1, 1), d(2024, 1, 31));
    assert_eq!(rows.len(), 3);
    assert_eq!(rows[0].date, "2024-01-03");
    assert_eq!(rows[0].total_keys, 2);
    assert_eq!(rows[0].total_clicks, 0);
    assert_eq!(rows[1].date, "2024-01-02");
    assert_eq!(rows[1].total_keys, 0);
    assert_eq!(rows[1].total_clicks, 1);
    assert_eq!(rows[2].date, "2024-01-01");
    assert_eq!(rows[2].total_keys, 1);
}

#[test]
fn inverted_range_is_empty() {
    let mut store = CounterStore::new();
    store.increment_key(d(2024, 1, 2), "A", None).unwrap();
    let stats = store.get_range_stats(d(2024, 1, 3), d(2024, 1, 1));
    assert_eq!(stats.total_keys, 0);
    assert_eq!(stats.total_clicks, 0);
    assert!(stats.key_stats.is_empty());
    assert!(stats.mouse_stats.is_empty());
    assert!(store.get_date_range_summary(d(2024, 1, 3), d(2024, 1, 1)).is_empty());
}

#[test]
fn top_keys_respects_the_limit() {
    let mut store = CounterStore::new();
    let day = d(2024, 1, 1);
    for _ in 0..3 {
        store.increment_key(day, "A", None).unwrap();
    }
    for _ in 0..5 {
        store.increment_key(day, "B", None).unwrap();
    }
    store.increment_key(day, "C", None).unwrap();

    let top2 = store.get_top_keys(day, 2);
    assert_eq!(top2.len(), 2);
    assert_eq!(top2[0].key_name, "B");
    assert_eq!(top2[0].count, 5);
    assert_eq!(top2[1].key_name, "A");
    assert!(store.get_top_keys(day, 0).is_empty());
    assert_eq!(store.get_top_keys(day, 100).len(), 3);
    assert_eq!(store.get_top_keys(day, -1).len(), 3);
}

#[test]
fn equal_counts_keep_first_seen_order() {
    let mut store = CounterStore::new();
    let day = d(2024, 1, 1);
    store.increment_key(day, "X", None).unwrap();
    store.increment_key(day, "Y", None).unwrap();
    store.increment_key(day, "Z", None).unwrap();
    let stats = store.get_date_stats(day);
    let names: Vec<&str> = stats.key_stats.iter().map(|k| k.key_name.as_str()).collect();
    assert_eq!(names, ["X", "Y", "Z"]);
}

#[test]
fn settings_are_last_write_wins() {
    let mut store = CounterStore::new();
    assert_eq!(store.get_setting("minimize_to_tray"), Some("true".to_string()));
    assert_eq!(store.get_setting("missing"), None);
    store.set_setting("minimize_to_tray", "false");
    assert_eq!(store.get_setting("minimize_to_tray"), Some("false".to_string()));
    store.set_setting("theme", "dark");
    store.set_setting("theme", "light");
    assert_eq!(store.get_setting("theme"), Some("light".to_string()));
}

#[test]
fn listener_flag_admits_one_capture_source() {
    let mut flag = get_running_flag();
    assert!(!is_listener_running(&flag));
    assert_eq!(start_global_listener(&mut flag), Ok(()));
    assert!(is_listener_running(&flag));
    assert_eq!(start_global_listener(&mut flag), Err(CaptureError::AlreadyRunning));
    assert!(is_listener_running(&flag));
    stop_global_listener(&mut flag);
    assert!(!is_listener_running(&flag));
    assert_eq!(start_global_listener(&mut flag), Ok(()));
}

#[test]
fn today_query_reads_the_clock() {
    let store = CounterStore::new();
    let today = store.get_today_stats().expect("the clock reports a four-digit year");
    assert_eq!(today.total_keys, 0);
    assert_eq!(today.total_clicks, 0);
    assert!(today.top_keys.is_empty());
    assert!(today.mouse_stats.is_empty());
    assert_eq!(today.date.len(), 10);
}

#[test]
fn flush_empties_the_buffer_and_applies_in_order() {
    let mut store = CounterStore::new();
    let mut agg = Aggregator::new();
    let day = d(2024, 5, 5);
    agg.offer(key("K"));
    agg.offer(click("Middle"));
    agg.flush(&mut store, day);
    assert_eq!(agg.buffered(), 0);
    agg.offer(key("K"));
    agg.flush(&mut store, day);
    let stats = store.get_date_stats(day);
    assert_eq!(stats.total_keys, 2);
    assert_eq!(stats.total_clicks, 1);
    assert_eq!(stats.key_stats[0].count, 2);
    assert_eq!(agg.dropped_increments(), 0);
}
