use lb_sim::metrics::{
    jain_fairness, mean, nearest_rank, percentile, throughput, utilization, Ratio, Tally,
};
use lb_sim::state::Assignment;

fn routed(server_id: usize, arrival: u64, started: u64, completed: u64) -> Assignment {
    Assignment {
        request_id: 1,
        server_id,
        server_name: "s".to_string(),
        arrival_time_ms: arrival,
        started_at: started,
        completed_at: completed,
        score: None,
    }
}

#[test]
fn single_sample_is_every_percentile() {
    assert_eq!(percentile(&vec![10], 95), Some(10));
    assert_eq!(percentile(&vec![10], 99), Some(10));
    assert_eq!(percentile(&vec![10], 0), Some(10));
    assert_eq!(percentile(&vec![10], 100), Some(10));
}

#[test]
fn no_sample_has_no_percentile() {
    assert_eq!(percentile(&Vec::new(), 95), None);
    assert_eq!(nearest_rank(&[], 50), None);
}

#[test]
fn percentile_takes_the_nearest_rank_of_the_sorted_samples() {
    let samples: Vec<u64> = vec![50, 10, 40, 20, 30];
    assert_eq!(percentile(&samples, 0), Some(10));
    assert_eq!(percentile(&samples, 20), Some(10));
    assert_eq!(percentile(&samples, 21), Some(20));
    assert_eq!(percentile(&samples, 50), Some(30));
    assert_eq!(percentile(&samples, 95), Some(50));
    assert_eq!(percentile(&samples, 100), Some(50));
    assert_eq!(percentile(&samples, 250), Some(50));
    let hundred: Vec<u64> = (1..=100).rev().collect();
    assert_eq!(percentile(&hundred, 95), Some(95));
    assert_eq!(percentile(&hundred, 99), Some(99));
    let twenty: Vec<u64> = (1..=20).collect();
    assert_eq!(percentile(&twenty, 95), Some(19));
    assert_eq!(percentile(&twenty, 99), Some(20));
}

#[test]
fn nearest_rank_reads_samples_as_they_are() {
    assert_eq!(nearest_rank(&[3, 1, 2], 50), Some(1));
    assert_eq!(nearest_rank(&[3, 1, 2], 100), Some(2));
}

#[test]
fn equal_counts_are_perfectly_fair() {
    let index = jain_fairness(&[7, 7, 7, 7]);
    assert_eq!(index.num, index.den);
    assert_eq!(index, Ratio { num: 28 * 28, den: 4 * (4 * 49) });
    assert_eq!(index.num as f64 / index.den as f64, 1.0);
}

#[test]
fn fairness_follows_jains_formula() {
    assert_eq!(jain_fairness(&[3, 1]), Ratio { num: 16, den: 20 });
    assert_eq!(jain_fairness(&[5, 0, 0]), Ratio { num: 25, den: 75 });
    assert_eq!(jain_fairness(&[0, 0]), Ratio { num: 0, den: 1 });
    assert_eq!(jain_fairness(&[]), Ratio { num: 0, den: 1 });
    let most = jain_fairness(&[u32::MAX]);
    assert_eq!(most.num, most.den);
}

#[test]
fn utilization_is_rounded_to_hundredths_of_a_percent() {
    assert_eq!(utilization(5, 10), 5000);
    assert_eq!(utilization(10, 10), 10000);
    assert_eq!(utilization(1, 3), 3333);
    assert_eq!(utilization(2, 3), 6667);
    assert_eq!(utilization(1, 20000), 1);
    assert_eq!(utilization(1, 20001), 0);
    assert_eq!(utilization(30, 10), 30000);
    assert_eq!(utilization(7, 0), 0);
}

#[test]
fn throughput_and_mean_are_exact_fractions() {
    assert_eq!(throughput(3, 12), Ratio { num: 3000, den: 12 });
    assert_eq!(throughput(3, 0), Ratio { num: 0, den: 1 });
    assert_eq!(mean(14, 4), Ratio { num: 14, den: 4 });
    assert_eq!(mean(14, 0), Ratio { num: 0, den: 1 });
}

#[test]
fn tally_adds_up_the_history() {
    let mut tally = Tally::new(2);
    tally.record(&routed(1, 100, 100, 130));
    tally.record(&routed(0, 100, 100, 110));
    tally.record(&routed(1, 101, 130, 160));
    assert_eq!(tally.duration_ms(), 160);
    assert_eq!(tally.average_response(0, 1), 10);
    assert_eq!(tally.average_response(1, 2), (30 + 59) / 2);
    let metrics = tally.metrics(&[1, 2]);
    assert_eq!(metrics.p95_response_ms, Some(59));
    assert_eq!(metrics.p99_response_ms, Some(59));
    assert_eq!(metrics.fairness, Ratio { num: 9, den: 2 * 5 });
    assert_eq!(metrics.utilization, vec![(10 * 10000 + 30) / 60, 10000]);
    assert_eq!(metrics.throughput_rps, Ratio { num: 3000, den: 60 });
    assert_eq!(metrics.avg_wait_ms, Ratio { num: 29, den: 3 });
}

#[test]
fn empty_tally_has_empty_metrics() {
    let tally = Tally::new(3);
    assert_eq!(tally.duration_ms(), 0);
    assert_eq!(tally.average_response(2, 0), 0);
    let metrics = tally.metrics(&[0, 0, 0]);
    assert_eq!(metrics.p95_response_ms, None);
    assert_eq!(metrics.p99_response_ms, None);
    assert_eq!(metrics.fairness, Ratio { num: 0, den: 1 });
    assert_eq!(metrics.utilization, vec![0, 0, 0]);
    assert_eq!(metrics.throughput_rps, Ratio { num: 0, den: 1 });
    assert_eq!(metrics.avg_wait_ms, Ratio { num: 0, den: 1 });
}
