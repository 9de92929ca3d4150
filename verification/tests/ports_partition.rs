use port_sniffer::ports::worker_ports;
use port_sniffer::ports::MAX_PORT;

#[test]
fn max_port_is_the_top_of_the_range() {
    assert_eq!(MAX_PORT, 65535);
}

#[test]
fn first_worker_of_four_starts_at_one_and_strides_by_four() {
    let v = worker_ports(0, 4);
    assert_eq!(v[0], 1);
    assert_eq!(v[1], 5);
    assert_eq!(v[2], 9);
    for w in v.windows(2) {
        assert_eq!(w[1] - w[0], 4);
    }
    // the walk reaches the last port of its class below the top
    assert_eq!(*v.last().unwrap(), 65533);
    assert_eq!(v.len(), 16384);
}

#[test]
fn some_worker_reaches_the_top_port() {
    // 65535 falls in the share of worker 2 of a 4-way scan
    assert_eq!(*worker_ports(2, 4).last().unwrap(), 65535);
}

#[test]
fn single_worker_walks_the_whole_range() {
    let v = worker_ports(0, 1);
    assert_eq!(v[0], 1);
    assert_eq!(*v.last().unwrap(), 65535);
    assert_eq!(v.len(), 65535);
}

#[test]
fn huge_worker_counts_still_terminate_without_overflow() {
    // with the stride close to the top of the port range every worker stops
    // after at most two candidates, and port 0 is never produced
    assert_eq!(worker_ports(0, 65534), vec![1, 65535]);
    assert_eq!(worker_ports(65533, 65534), vec![65534]);
    assert_eq!(worker_ports(0, 65535), vec![1]);
    assert_eq!(worker_ports(65534, 65535), vec![65535]);
    for i in [1u16, 77, 65000, 65533] {
        let v = worker_ports(i, 65534);
        assert_eq!(v, vec![i + 1]);
    }
}

#[test]
fn workers_cover_the_port_space_without_overlap() {
    let n: u16 = 100;
    let mut seen = vec![false; 65536];
    for i in 0..n {
        for p in worker_ports(i, n) {
            assert!(p >= 1);
            assert!(!seen[p as usize], "port {} visited twice", p);
            seen[p as usize] = true;
        }
    }
    assert!(!seen[0]);
    // every port of 1..=65535 is visited exactly once
    for p in 1..=65535usize {
        assert!(seen[p], "port {} never visited", p);
    }
}

#[test]
fn each_worker_visits_strictly_increasing_ports() {
    for n in [1u16, 2, 3, 4, 10, 1000] {
        for i in 0..n.min(8) {
            let v = worker_ports(i, n);
            for w in v.windows(2) {
                assert!(w[0] < w[1]);
            }
            assert_eq!(v[0], i + 1);
        }
    }
}
