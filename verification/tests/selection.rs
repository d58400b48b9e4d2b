use lb_sim::algorithms::{
    pick_index, pick_least_connections, pick_least_response_time, pick_round_robin,
    pick_weighted_round_robin,
};
use lb_sim::models::ServerConfig;
use lb_sim::state::ServerState;
use rand::rngs::StdRng;
use rand::{Rng, SeedableRng};

fn state_at(id: usize, name: &str, active_connections: u32, pick_count: u32) -> ServerState {
    ServerState {
        id,
        name: name.to_string(),
        base_latency_ms: 10,
        weight: 1,
        active_connections,
        pick_count,
        in_flight: 0,
        next_available_ms: 0,
    }
}

fn server(name: &str, base_latency_ms: u64, weight: u32) -> ServerConfig {
    ServerConfig { name: name.to_string(), base_latency_ms, weight }
}

#[test]
fn algorithms_round_robin_cycles_indices() {
    let mut next_idx = 0usize;
    assert_eq!(pick_round_robin(&mut next_idx, 3), 0);
    assert_eq!(pick_round_robin(&mut next_idx, 3), 1);
    assert_eq!(pick_round_robin(&mut next_idx, 3), 2);
    assert_eq!(pick_round_robin(&mut next_idx, 3), 0);
}

#[test]
fn algorithms_least_connections_prefers_lowest_active_connections() {
    let servers = vec![state_at(0, "a", 3, 0), state_at(1, "b", 1, 0), state_at(2, "c", 2, 0)];
    let idx = pick_least_connections(&servers, None);
    assert_eq!(idx, 1);
}

#[test]
fn algorithms_least_connections_tiebreaks_stably_without_seed() {
    let servers = vec![state_at(0, "a", 1, 0), state_at(1, "b", 2, 0), state_at(2, "c", 1, 0)];
    let idx = pick_least_connections(&servers, None);
    assert_eq!(idx, 0);
}

#[test]
fn algorithms_least_response_time_prefers_lowest_score() {
    let configs = vec![server("a", 30, 1), server("b", 10, 1), server("c", 20, 1)];
    let states = vec![state_at(0, "a", 0, 0), state_at(1, "b", 0, 2), state_at(2, "c", 0, 0)];
    let (idx, score) = pick_least_response_time(&configs, &states, None);
    assert_eq!(idx, 2);
    assert_eq!(score, 20);
}

#[test]
fn algorithms_least_connections_uses_seeded_tiebreak() {
    let servers = vec![state_at(0, "a", 1, 0), state_at(1, "b", 1, 0), state_at(2, "c", 1, 0)];
    let candidates = [0usize, 1, 2];
    let mut rng = StdRng::seed_from_u64(42);
    let expected = {
        let choice = rng.gen_range(0..candidates.len());
        candidates[choice]
    };
    let mut rng = StdRng::seed_from_u64(42);
    let actual = pick_least_connections(&servers, Some(&mut rng));
    assert_eq!(actual, expected);
}

#[test]
fn algorithms_least_response_time_uses_seeded_tiebreak() {
    let configs = vec![server("a", 10, 1), server("b", 10, 1), server("c", 20, 1)];
    let states = vec![state_at(0, "a", 0, 0), state_at(1, "b", 0, 0), state_at(2, "c", 0, 0)];
    let candidates = [0usize, 1];
    let mut rng = StdRng::seed_from_u64(99);
    let expected = {
        let choice = rng.gen_range(0..candidates.len());
        candidates[choice]
    };
    let mut rng = StdRng::seed_from_u64(99);
    let (actual, score) = pick_least_response_time(&configs, &states, Some(&mut rng));
    assert_eq!(actual, expected);
    assert_eq!(score, 10);
}

#[test]
fn algorithms_pick_index_uses_seeded_rng() {
    let candidates = vec![10usize, 20, 30];
    let mut rng = StdRng::seed_from_u64(7);
    let expected = {
        let choice = rng.gen_range(0..candidates.len());
        candidates[choice]
    };
    let mut rng = StdRng::seed_from_u64(7);
    let actual = pick_index(&candidates, Some(&mut rng));
    assert_eq!(actual, expected);
}

#[test]
fn algorithms_weighted_round_robin_respects_weights() {
    let servers = vec![server("a", 10, 2), server("b", 10, 1)];
    let mut cursor = 0usize;
    let picks: Vec<usize> =
        (0..6).map(|_| pick_weighted_round_robin(&mut cursor, &servers)).collect();
    assert_eq!(picks, vec![0, 0, 1, 0, 0, 1]);
}

#[test]
fn sim_round_robin_cycles_indices() {
    let mut next_idx = 0usize;
    assert_eq!(pick_round_robin(&mut next_idx, 3), 0);
    assert_eq!(pick_round_robin(&mut next_idx, 3), 1);
    assert_eq!(pick_round_robin(&mut next_idx, 3), 2);
    assert_eq!(pick_round_robin(&mut next_idx, 3), 0);
}

#[test]
fn sim_least_connections_prefers_lowest_active_connections() {
    let servers = vec![state_at(0, "a", 3, 0), state_at(1, "b", 1, 0), state_at(2, "c", 2, 0)];
    let idx = pick_least_connections(&servers, None);
    assert_eq!(idx, 1);
}

#[test]
fn sim_least_connections_tiebreaks_stably_without_seed() {
    let servers = vec![state_at(0, "a", 1, 0), state_at(1, "b", 2, 0), state_at(2, "c", 1, 0)];
    let idx = pick_least_connections(&servers, None);
    assert_eq!(idx, 0);
}

#[test]
fn sim_least_response_time_prefers_lowest_score() {
    let configs = vec![server("a", 30, 1), server("b", 10, 1), server("c", 20, 1)];
    let states = vec![state_at(0, "a", 0, 0), state_at(1, "b", 0, 2), state_at(2, "c", 0, 0)];
    let (idx, score) = pick_least_response_time(&configs, &states, None);
    assert_eq!(idx, 2);
    assert_eq!(score, 20);
}

#[test]
fn sim_least_connections_uses_seeded_tiebreak() {
    let servers = vec![state_at(0, "a", 1, 0), state_at(1, "b", 1, 0), state_at(2, "c", 1, 0)];
    let candidates = [0usize, 1, 2];
    let mut rng = StdRng::seed_from_u64(42);
    let expected = {
        let choice = rng.gen_range(0..candidates.len());
        candidates[choice]
    };
    let mut rng = StdRng::seed_from_u64(42);
    let actual = pick_least_connections(&servers, Some(&mut rng));
    assert_eq!(actual, expected);
}

#[test]
fn sim_least_response_time_uses_seeded_tiebreak() {
    let configs = vec![server("a", 10, 1), server("b", 10, 1), server("c", 20, 1)];
    let states = vec![state_at(0, "a", 0, 0), state_at(1, "b", 0, 0), state_at(2, "c", 0, 0)];
    let candidates = [0usize, 1];
    let mut rng = StdRng::seed_from_u64(99);
    let expected = {
        let choice = rng.gen_range(0..candidates.len());
        candidates[choice]
    };
    let mut rng = StdRng::seed_from_u64(99);
    let (actual, score) = pick_least_response_time(&configs, &states, Some(&mut rng));
    assert_eq!(actual, expected);
    assert_eq!(score, 10);
}

#[test]
fn sim_pick_index_uses_seeded_rng() {
    let candidates = vec![10usize, 20, 30];
    let mut rng = StdRng::seed_from_u64(7);
    let expected = {
        let choice = rng.gen_range(0..candidates.len());
        candidates[choice]
    };
    let mut rng = StdRng::seed_from_u64(7);
    let actual = pick_index(&candidates, Some(&mut rng));
    assert_eq!(actual, expected);
}

#[test]
fn sim_weighted_round_robin_respects_weights() {
    let servers = vec![server("a", 10, 2), server("b", 10, 1)];
    let mut cursor = 0usize;
    let picks: Vec<usize> =
        (0..6).map(|_| pick_weighted_round_robin(&mut cursor, &servers)).collect();
    assert_eq!(picks, vec![0, 0, 1, 0, 0, 1]);
}

#[test]
fn pick_index_takes_the_first_candidate_without_a_stream() {
    assert_eq!(pick_index(&[7usize, 3, 9], None), 7);
    assert_eq!(lb_sim::algorithms::resolve_tie(&[7usize, 3, 9], Some(2)), 9);
    assert_eq!(lb_sim::algorithms::resolve_tie(&[7usize, 3, 9], None), 7);
}

#[test]
fn pick_index_leaves_the_stream_alone_for_a_lone_candidate() {
    let mut used = StdRng::seed_from_u64(5);
    let mut fresh = StdRng::seed_from_u64(5);
    assert_eq!(pick_index(&[4usize], Some(&mut used)), 4);
    assert_eq!(used.gen_range(0..1000usize), fresh.gen_range(0..1000usize));
}

#[test]
fn seeded_picks_stay_among_the_candidates() {
    let servers = vec![
        state_at(0, "a", 2, 0),
        state_at(1, "b", 1, 0),
        state_at(2, "c", 1, 0),
        state_at(3, "d", 5, 0),
        state_at(4, "e", 1, 0),
    ];
    let mut rng = StdRng::seed_from_u64(11);
    let mut seen = [false; 5];
    for _ in 0..200 {
        let idx = pick_least_connections(&servers, Some(&mut rng));
        assert!(idx == 1 || idx == 2 || idx == 4);
        seen[idx] = true;
    }
    assert!(seen[1] && seen[2] && seen[4]);
}

#[test]
fn find_least_positions_lists_every_minimum_in_order() {
    let found = lb_sim::algorithms::find_least_positions(&vec![5, 2, 9, 2, 2, 7]);
    assert_eq!(found, vec![1, 3, 4]);
    let found = lb_sim::algorithms::find_least_positions(&vec![u64::MAX, u64::MAX]);
    assert_eq!(found, vec![0, 1]);
}

#[test]
fn round_robin_reduces_a_cursor_beyond_the_servers() {
    let mut next_idx = 7usize;
    assert_eq!(pick_round_robin(&mut next_idx, 3), 1);
    assert_eq!(next_idx, 2);
    let mut last = usize::MAX;
    let idx = pick_round_robin(&mut last, 4);
    assert_eq!(idx, usize::MAX % 4);
    assert_eq!(last, (idx + 1) % 4);
}

#[test]
fn weighted_round_robin_skips_servers_without_weight() {
    let servers = vec![server("a", 10, 0), server("b", 10, 3), server("c", 10, 1)];
    let mut cursor = 0usize;
    let picks: Vec<usize> =
        (0..8).map(|_| pick_weighted_round_robin(&mut cursor, &servers)).collect();
    assert_eq!(picks, vec![1, 1, 1, 2, 1, 1, 1, 2]);
}
