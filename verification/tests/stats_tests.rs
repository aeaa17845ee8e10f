use pingpong::stats::{ConnectionQuality, PingResult, PingStats, RttStats};

fn success(rtt: u32, sequence: u16) -> PingResult {
    PingResult::Success { rtt, sequence, timestamp: sequence as u64 }
}

fn timeout(sequence: u16) -> PingResult {
    PingResult::Timeout { sequence, timestamp: sequence as u64 }
}

fn error(sequence: u16) -> PingResult {
    PingResult::Error { error: String::from("unreachable"), sequence, timestamp: sequence as u64 }
}

#[test]
fn empty_history_has_no_loss_and_zero_summary() {
    let stats = PingStats::new(10);
    assert_eq!(stats.packet_loss_percent(), 0);
    assert_eq!(stats.packet_loss_percent_recent(20), 0);
    let summary = stats.rtt_stats();
    assert_eq!(summary, RttStats::default());
    assert_eq!(summary.min, 0);
    assert_eq!(summary.max, 0);
    assert_eq!(summary.avg, 0);
    assert_eq!(summary.median, 0);
    assert_eq!(summary.jitter, 0);
    assert_eq!(stats.total_pings(), 0);
}

#[test]
fn counters_balance_after_any_mix() {
    let mut stats = PingStats::new(4);
    stats.add_result(&success(10_000, 0));
    stats.add_result(&timeout(1));
    stats.add_result(&error(2));
    stats.add_result(&success(20_000, 3));
    stats.add_result(&timeout(4));
    stats.add_result(&success(30_000, 5));
    assert_eq!(stats.total_pings(), 6);
    assert_eq!(stats.successful_pings(), 3);
    assert_eq!(stats.timeouts(), 2);
    assert_eq!(stats.errors(), 1);
    assert_eq!(
        stats.successful_pings() + stats.timeouts() + stats.errors(),
        stats.total_pings()
    );
}

#[test]
fn history_keeps_only_the_most_recent_entries_in_order() {
    let mut stats = PingStats::new(3);
    for seq in 0..5u16 {
        stats.add_result(&success(1_000 * (seq as u32 + 1), seq));
    }
    let history = stats.history();
    assert_eq!(history.len(), 3);
    // The two oldest were evicted; sequences 2, 3, 4 remain in order.
    let sequences: Vec<u16> = history.iter().map(|r| r.sequence()).collect();
    assert_eq!(sequences, vec![2, 3, 4]);
    // Lifetime counters still span everything.
    assert_eq!(stats.total_pings(), 5);
}

#[test]
fn zero_capacity_keeps_no_history_but_counts() {
    let mut stats = PingStats::new(0);
    stats.add_result(&success(1_000, 0));
    stats.add_result(&timeout(1));
    assert_eq!(stats.history().len(), 0);
    assert_eq!(stats.total_pings(), 2);
    assert_eq!(stats.successful_pings(), 1);
    assert_eq!(stats.timeouts(), 1);
    // With no retained history the windowed metrics see nothing; the
    // lifetime loss still covers both records.
    assert_eq!(stats.packet_loss_percent_recent(20), 0);
    assert_eq!(stats.packet_loss_percent(), 5000);
}

#[test]
fn windowed_loss_considers_only_the_most_recent_entries() {
    let mut stats = PingStats::new(10);
    stats.add_result(&success(10_000, 0));
    stats.add_result(&timeout(1));
    stats.add_result(&success(10_000, 2));
    stats.add_result(&success(10_000, 3));
    // Last two entries are both successes: no loss in a window of 2.
    assert_eq!(stats.packet_loss_percent_recent(2), 0);
    // A window of 3 sees one timeout among three entries: 33.33%.
    assert_eq!(stats.packet_loss_percent_recent(3), 3333);
    // The full window sees one timeout among four entries: 25%.
    assert_eq!(stats.packet_loss_percent_recent(4), 2500);
    assert_eq!(stats.packet_loss_percent_recent(20), 2500);
}

#[test]
fn lifetime_loss_is_exact() {
    let mut stats = PingStats::new(2);
    stats.add_result(&success(10_000, 0));
    stats.add_result(&timeout(1));
    stats.add_result(&error(2));
    stats.add_result(&success(10_000, 3));
    // 2 of 4 lost: 50.00%, even though the bounded history is shorter.
    assert_eq!(stats.packet_loss_percent(), 5000);
}

#[test]
fn three_rtts_give_exact_summary() {
    let mut stats = PingStats::new(10);
    stats.add_result(&success(10_000, 0)); // 10ms
    stats.add_result(&success(20_000, 1)); // 20ms
    stats.add_result(&success(30_000, 2)); // 30ms
    let summary = stats.rtt_stats();
    assert_eq!(summary.min, 10_000);
    assert_eq!(summary.max, 30_000);
    assert_eq!(summary.avg, 20_000);
    assert_eq!(summary.median, 20_000);
    // Population stddev of {10ms, 20ms, 30ms} is ~8.16ms: the integer
    // square root of (2 * 10000^2) / 3 microseconds.
    assert_eq!(summary.jitter, 8_164);
}

#[test]
fn median_of_even_count_is_the_mean_of_the_central_pair() {
    let mut stats = PingStats::new(10);
    // Insert out of order; the median sorts.
    stats.add_result(&success(40_000, 0));
    stats.add_result(&success(10_000, 1));
    stats.add_result(&success(30_000, 2));
    stats.add_result(&success(20_000, 3));
    let summary = stats.rtt_stats();
    assert_eq!(summary.min, 10_000);
    assert_eq!(summary.max, 40_000);
    assert_eq!(summary.median, 25_000);
    assert_eq!(summary.avg, 25_000);
}

#[test]
fn non_success_entries_contribute_no_rtt() {
    let mut stats = PingStats::new(10);
    stats.add_result(&timeout(0));
    stats.add_result(&error(1));
    assert_eq!(stats.rtt_stats(), RttStats::default());
    stats.add_result(&success(50_000, 2));
    let summary = stats.rtt_stats();
    assert_eq!(summary.min, 50_000);
    assert_eq!(summary.max, 50_000);
    assert_eq!(summary.avg, 50_000);
    assert_eq!(summary.median, 50_000);
    assert_eq!(summary.jitter, 0);
}

#[test]
fn twenty_results_with_three_timeouts_classify_poor() {
    let mut stats = PingStats::new(50);
    let mut seq: u16 = 0;
    for _ in 0..17 {
        stats.add_result(&success(40_000, seq)); // 40ms
        seq += 1;
    }
    for _ in 0..3 {
        stats.add_result(&timeout(seq));
        seq += 1;
    }
    // Windowed loss over the last 20: 3 of 20 = 15% > 10% => Poor.
    assert_eq!(stats.packet_loss_percent_recent(20), 1500);
    assert_eq!(stats.connection_quality(), ConnectionQuality::Poor);
}

#[test]
fn twenty_clean_results_at_sixty_ms_classify_good() {
    let mut stats = PingStats::new(50);
    for seq in 0..20u16 {
        stats.add_result(&success(60_000, seq)); // 60ms
    }
    assert_eq!(stats.packet_loss_percent_recent(20), 0);
    assert_eq!(stats.rtt_stats().avg, 60_000);
    assert_eq!(stats.connection_quality(), ConnectionQuality::Good);
}

#[test]
fn slow_mean_rtt_classifies_fair_and_poor() {
    let mut stats = PingStats::new(50);
    for seq in 0..5u16 {
        stats.add_result(&success(200_000, seq)); // 200ms > 100ms => Fair
    }
    assert_eq!(stats.connection_quality(), ConnectionQuality::Fair);
    let mut slow = PingStats::new(50);
    for seq in 0..5u16 {
        slow.add_result(&success(600_000, seq)); // 600ms > 500ms => Poor
    }
    assert_eq!(slow.connection_quality(), ConnectionQuality::Poor);
}

#[test]
fn recent_results_are_newest_first() {
    let mut stats = PingStats::new(10);
    for seq in 0..4u16 {
        stats.add_result(&success(1_000, seq));
    }
    let recent = stats.recent_results(3);
    let sequences: Vec<u16> = recent.iter().map(|r| r.sequence()).collect();
    assert_eq!(sequences, vec![3, 2, 1]);
    assert_eq!(stats.recent_results(10).len(), 4);
}

#[test]
fn result_accessors_expose_the_outcome() {
    let ok = success(12_345, 7);
    assert!(ok.is_success());
    assert_eq!(ok.rtt(), Some(12_345));
    assert_eq!(ok.sequence(), 7);
    assert_eq!(ok.timestamp(), 7);
    let t = timeout(9);
    assert!(!t.is_success());
    assert_eq!(t.rtt(), None);
    let e = error(11);
    assert!(!e.is_success());
    assert_eq!(e.rtt(), None);
    assert_eq!(e.sequence(), 11);
}

#[test]
fn graph_sampling_pads_and_steps() {
    let empty = PingStats::new(10);
    assert_eq!(empty.rtt_history_for_graph(4), vec![None, None, None, None]);

    let mut stats = PingStats::new(10);
    stats.add_result(&success(10_000, 0));
    stats.add_result(&timeout(1));
    stats.add_result(&success(30_000, 2));
    // Three entries into three points: one each, timeouts sample as None.
    assert_eq!(
        stats.rtt_history_for_graph(3),
        vec![Some(10_000), None, Some(30_000)]
    );
    // More points than entries: padded with None.
    assert_eq!(
        stats.rtt_history_for_graph(5),
        vec![Some(10_000), None, Some(30_000), None, None]
    );
    // One point: only the oldest entry is sampled (step = 3).
    assert_eq!(stats.rtt_history_for_graph(1), vec![Some(10_000)]);
}

#[test]
fn quality_symbols_and_colors() {
    assert_eq!(ConnectionQuality::Good.color(), "green");
    assert_eq!(ConnectionQuality::Fair.color(), "yellow");
    assert_eq!(ConnectionQuality::Poor.color(), "red");
    assert_eq!(ConnectionQuality::Good.symbol(), "●");
    assert_eq!(ConnectionQuality::Fair.symbol(), "◐");
    assert_eq!(ConnectionQuality::Poor.symbol(), "○");
}

#[test]
fn cloned_stats_report_the_same_metrics() {
    let mut stats = PingStats::new(5);
    stats.add_result(&success(10_000, 0));
    stats.add_result(&timeout(1));
    let copy = stats.clone();
    assert_eq!(copy.total_pings(), stats.total_pings());
    assert_eq!(copy.packet_loss_percent(), stats.packet_loss_percent());
    assert_eq!(copy.rtt_stats(), stats.rtt_stats());
    assert_eq!(copy.history().len(), stats.history().len());
}
