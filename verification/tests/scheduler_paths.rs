use mpudp::scheduler::{
    pick_index, pick_other, Rank, Stat, EPSILON_LATENCY_NS, RANK_UPDATE_COOL_DOWN_NS,
};

const MS: u64 = 1_000_000;
const SEC: u64 = 1_000_000_000;

#[test]
fn latency_has_millisecond_floor() {
    let s = Stat::new(0);
    assert_eq!(s.latency(0), EPSILON_LATENCY_NS);
    assert_eq!(s.latency(MS / 2), EPSILON_LATENCY_NS);
    assert_eq!(s.latency(2 * MS), 2 * MS);
}

#[test]
fn latency_of_closed_exchange() {
    let mut s = Stat::new(0);
    s.sent(10);
    s.recv(10 + 3 * MS);
    // the receive closed the gap: latency is the gap, whatever now is
    assert_eq!(s.latency(10 + 3 * MS), 3 * MS);
    assert_eq!(s.latency(SEC), 3 * MS);
}

#[test]
fn latency_grows_while_send_outstanding() {
    let mut s = Stat::new(0);
    s.sent(10);
    s.recv(10 + 3 * MS);
    s.sent(20 * MS);
    // a send is outstanding: the estimate is the growing open gap once it
    // exceeds the previous sample
    assert_eq!(s.latency(21 * MS), 3 * MS);
    assert_eq!(s.latency(30 * MS), 10 * MS);
}

#[test]
fn second_send_does_not_restart_the_clock() {
    let mut s = Stat::new(0);
    s.sent(10);
    s.recv(10 + 3 * MS);
    s.sent(20 * MS);
    s.sent(25 * MS);
    // the second send while outstanding changed nothing
    assert_eq!(s.latency(30 * MS), 10 * MS);
}

#[test]
fn rank_new_is_uniform() {
    let r = Rank::new(4, 0);
    assert_eq!(r.values, vec![1, 1, 1, 1]);
    assert_eq!(r.total, 4);
}

#[test]
fn rank_update_weights_are_latencies() {
    let stats = vec![
        Stat {
            last_sent_start: 0,
            last_recv: 5 * MS,
            prev_latency: 0,
        },
        Stat {
            last_sent_start: 0,
            last_recv: 0,
            prev_latency: 0,
        },
    ];
    let mut r = Rank::new(2, 0);
    r.update_rank(&stats, 12 * MS);
    // the weights form an exact distribution: numerators sum to the
    // denominator, every numerator at least the floor
    assert_eq!(r.values, vec![5 * MS, 12 * MS]);
    assert_eq!(r.total, (17 * MS) as u128);
    assert!(r.values.iter().all(|&v| v >= EPSILON_LATENCY_NS));
}

#[test]
fn rank_update_is_deterministic() {
    let stats = vec![Stat::new(0), Stat::new(0)];
    let mut a = Rank::new(2, 0);
    let mut b = Rank::new(2, 0);
    a.update_rank(&stats, 7 * MS);
    b.update_rank(&stats, 7 * MS);
    assert_eq!(a.values, b.values);
    a.update_rank(&stats, 7 * MS);
    // a second update over unchanged stats changes nothing
    assert_eq!(a.values, b.values);
}

#[test]
fn needs_update_after_cool_down() {
    let r = Rank::new(2, SEC);
    assert!(!r.needs_update(SEC + RANK_UPDATE_COOL_DOWN_NS));
    assert!(r.needs_update(SEC + RANK_UPDATE_COOL_DOWN_NS + 1));
}

#[test]
fn pick_index_scans_prefix_sums() {
    let values = vec![2u64, 3, 5];
    assert_eq!(pick_index(&values, 0), 0);
    assert_eq!(pick_index(&values, 1), 0);
    assert_eq!(pick_index(&values, 2), 1);
    assert_eq!(pick_index(&values, 4), 1);
    assert_eq!(pick_index(&values, 5), 2);
    assert_eq!(pick_index(&values, 9), 2);
}

#[test]
fn pick_other_skips_the_excluded_path() {
    assert_eq!(pick_other(5, 2, 0), 0);
    assert_eq!(pick_other(5, 2, 1), 1);
    assert_eq!(pick_other(5, 2, 2), 3);
    assert_eq!(pick_other(5, 2, 3), 4);
    assert_eq!(pick_other(2, 0, 0), 1);
}

#[test]
fn choose_exploit_stays_in_range() {
    let r = Rank::new(3, 0);
    for _ in 0..200 {
        let i = r.choose_exploit().unwrap();
        assert!(i < 3);
    }
    let empty = Rank::new(0, 0);
    assert_eq!(empty.choose_exploit(), None);
}

#[test]
fn choose_explore_avoids_the_exploit_path() {
    let r = Rank::new(3, 0);
    let mut explored = false;
    for _ in 0..300 {
        if let Some(j) = r.choose_explore(1) {
            assert!(j < 3);
            assert_ne!(j, 1);
            explored = true;
        }
    }
    // exploration fires with probability seven in ten per draw
    assert!(explored);
    let single = Rank::new(1, 0);
    assert_eq!(single.choose_explore(0), None);
}

#[test]
fn dead_path_gains_weight() {
    // path 0 never hears back: its open gap dwarfs path 1's real latency
    let mut p0 = Stat::new(0);
    let mut p1 = Stat::new(0);
    p0.sent(SEC);
    p1.sent(SEC);
    p1.recv(SEC + 2 * MS);
    let stats = vec![p0, p1];
    let mut r = Rank::new(2, 0);
    let now = 11 * SEC;
    r.update_rank(&stats, now);
    assert_eq!(r.values, vec![10 * SEC, 2 * MS]);
    assert!(r.values[0] > r.values[1]);
    // the weighted sampler therefore probes the silent path almost always,
    // while exploration deterministically covers the live one
    assert_eq!(pick_index(&r.values, 0), 0);
    assert_eq!(pick_other(2, 0, 0), 1);
}
