//! Partition of the port space across workers, and each worker's visit order.

use vstd::arithmetic::div_mod::lemma_add_mod_noop;
use vstd::arithmetic::div_mod::lemma_basic_div;
use vstd::arithmetic::div_mod::lemma_div_plus_one;
use vstd::arithmetic::div_mod::lemma_fundamental_div_mod;
use vstd::arithmetic::div_mod::lemma_mod_decreases;
use vstd::arithmetic::div_mod::lemma_mod_bound;
use vstd::arithmetic::div_mod::lemma_mod_multiples_vanish;
use vstd::arithmetic::div_mod::lemma_mod_self_0;
use vstd::arithmetic::div_mod::lemma_small_mod;
use vstd::prelude::*;

verus! {

/// Highest TCP port number; a scan covers ports 1 through this value.
pub const MAX_PORT: u16 = 65535;

/// The ports a worker visits, in order, when its first candidate is `port`
/// and successive candidates are `stride` apart: every member of `port`'s
/// residue class from `port` up to `MAX_PORT`. The worker steps only while a
/// whole stride still fits below the top, so no candidate ever exceeds
/// `MAX_PORT`.
pub open spec fn ports_from(port: u16, stride: u16) -> Seq<u16>
    decreases MAX_PORT - port,
{
    if stride == 0 {
        Seq::empty()
    } else if MAX_PORT - port < stride {
        seq![port]
    } else {
        seq![port] + ports_from((port + stride) as u16, stride)
    }
}

/// The ports visited by worker `start_index` out of `stride` workers:
/// the worker's first candidate is `start_index + 1`.
pub open spec fn worker_visit_seq(start_index: u16, stride: u16) -> Seq<u16> {
    ports_from((start_index + 1) as u16, stride)
}

/// Every pair of positions is strictly ordered: no repeats, ascending.
pub open spec fn strictly_increasing(s: Seq<u16>) -> bool {
    forall|a: int, b: int| 0 <= a < b < s.len() ==> s[a] < s[b]
}

/// Enumerates the ports assigned to one worker, in the order it probes them.
///
/// Worker `start_index` of `stride` workers starts at port `start_index + 1`
/// and advances by `stride` for as long as the next candidate stays within
/// `MAX_PORT`; the result is exactly that visit sequence.
pub fn worker_ports(start_index: u16, stride: u16) -> (r: Vec<u16>)
    requires
        1 <= stride,
        start_index < stride,
    ensures
        r@ == worker_visit_seq(start_index, stride),
{
    let first: u16 = start_index + 1;
    let mut out: Vec<u16> = Vec::new();
    let mut port: u16 = first;
    out.push(port);
    while MAX_PORT - port >= stride
        invariant
            1 <= stride,
            first <= port <= MAX_PORT,
            out@.len() >= 1,
            out@.last() == port,
            ports_from(first, stride) == out@.drop_last() + ports_from(port, stride),
        decreases MAX_PORT - port,
    {
        proof {
            assert(ports_from(port, stride) == seq![port] + ports_from(
                (port + stride) as u16,
                stride,
            ));
            assert(out@.drop_last().push(port) =~= out@);
            assert(out@.drop_last() + (seq![port] + ports_from((port + stride) as u16, stride))
                =~= out@ + ports_from((port + stride) as u16, stride));
        }
        port = port + stride;
        out.push(port);
        proof {
            assert(out@.drop_last() =~= out@.subrange(0, out@.len() - 1));
        }
    }
    proof {
        assert(ports_from(port, stride) == seq![port]);
        assert(out@.drop_last() + seq![port] =~= out@);
    }
    out
}

/// Port `p` belongs to worker `i`'s share of an `n`-way scan: the share of
/// worker `i` is the residue class of `i + 1` modulo `n`, cut to `1..=MAX_PORT`.
pub open spec fn assigned_to_worker(p: int, i: int, n: int) -> bool {
    &&& 1 <= p <= MAX_PORT
    &&& 0 <= i < n
    &&& p % n == (i + 1) % n
}

/// Partition law: with `n >= 1` workers, every port in `1..=MAX_PORT` belongs
/// to exactly one worker's share — the classes cover the whole port range
/// with no gaps and no overlaps.
pub proof fn lemma_partition(n: int, p: int)
    requires
        1 <= n,
        1 <= p <= MAX_PORT,
    ensures
        assigned_to_worker(p, (p - 1) % n, n),
        forall|i: int| assigned_to_worker(p, i, n) ==> i == (p - 1) % n,
{
    lemma_mod_bound(p - 1, n);
    lemma_add_mod_noop(p - 1, 1, n);
    if n == 1 {
        lemma_mod_self_0(1);
    } else {
        lemma_small_mod(1, n as nat);
    }
    let j = (p - 1) % n;
    assert(((j + 1) % n) == p % n);
    assert forall|i: int| assigned_to_worker(p, i, n) implies i == j by {
        if i + 1 < n {
            lemma_small_mod((i + 1) as nat, n as nat);
        } else {
            lemma_mod_self_0(n);
        }
        if j + 1 < n {
            lemma_small_mod((j + 1) as nat, n as nat);
        } else {
            lemma_mod_self_0(n);
        }
    }
}

/// A worker's visit sequence starts at its first candidate, never revisits
/// or falls back, and never goes below that candidate.
pub proof fn lemma_ports_from_increasing(port: u16, stride: u16)
    requires
        1 <= stride,
    ensures
        ports_from(port, stride).len() >= 1,
        ports_from(port, stride)[0] == port,
        strictly_increasing(ports_from(port, stride)),
        forall|k: int|
            0 <= k < ports_from(port, stride).len() ==> port <= #[trigger] ports_from(
                port,
                stride,
            )[k],
    decreases MAX_PORT - port,
{
    let s = ports_from(port, stride);
    if MAX_PORT - port < stride {
        assert(s == seq![port]);
    } else {
        let t = ports_from((port + stride) as u16, stride);
        lemma_ports_from_increasing((port + stride) as u16, stride);
        assert(s == seq![port] + t);
        assert forall|k: int| 0 <= k < s.len() implies port <= #[trigger] s[k] by {
            if k > 0 {
                assert(s[k] == t[k - 1]);
            }
        }
        assert forall|a: int, b: int| 0 <= a < b < s.len() implies s[a] < s[b] by {
            assert(s[b] == t[b - 1]);
            if a > 0 {
                assert(s[a] == t[a - 1]);
            }
        }
    }
}

/// Everything a worker visits sits in its own residue class, at or above its
/// first candidate.
pub proof fn lemma_ports_from_residue(port: u16, stride: u16, p: u16)
    requires
        1 <= stride,
        ports_from(port, stride).contains(p),
    ensures
        p as int % stride as int == port as int % stride as int,
        port <= p,
    decreases MAX_PORT - port,
{
    let s = ports_from(port, stride);
    if MAX_PORT - port < stride {
        assert(s == seq![port]);
        assert(p == port);
    } else {
        let t = ports_from((port + stride) as u16, stride);
        assert(s == seq![port] + t);
        let w = choose|w: int| 0 <= w < s.len() && s[w] == p;
        if w == 0 {
            assert(p == port);
        } else {
            assert(t[w - 1] == p);
            assert(t.contains(p));
            lemma_ports_from_residue((port + stride) as u16, stride, p);
            lemma_mod_multiples_vanish(1, port as int, stride as int);
        }
    }
}

/// The number of probes a walk makes: one for the first candidate and one
/// for every further whole stride up to the top of the range.
pub proof fn lemma_ports_from_len(port: u16, stride: u16)
    requires
        1 <= stride,
    ensures
        ports_from(port, stride).len() == (MAX_PORT - port) / (stride as int) + 1,
    decreases MAX_PORT - port,
{
    if MAX_PORT - port < stride {
        lemma_basic_div((MAX_PORT - port) as int, stride as int);
    } else {
        lemma_ports_from_len((port + stride) as u16, stride);
        lemma_div_plus_one((MAX_PORT - port - stride) as int, stride as int);
    }
}

/// Each worker visits a strictly increasing, finite sequence of ports, all
/// within `1..=MAX_PORT`: no repeats, no port 0, nothing past the top. The
/// walk terminates after exactly `(MAX_PORT - 1 - start_index) / stride + 1`
/// probes.
pub proof fn lemma_worker_visits(start_index: u16, stride: u16)
    requires
        1 <= stride,
        start_index < stride,
    ensures
        strictly_increasing(worker_visit_seq(start_index, stride)),
        worker_visit_seq(start_index, stride).len() == (MAX_PORT - 1 - start_index) / (
        stride as int) + 1,
        forall|k: int|
            0 <= k < worker_visit_seq(start_index, stride).len() ==> 1 <= #[trigger] worker_visit_seq(
                start_index,
                stride,
            )[k] <= MAX_PORT,
{
    lemma_ports_from_increasing((start_index + 1) as u16, stride);
    lemma_ports_from_len((start_index + 1) as u16, stride);
}

/// What a worker visits lies inside the share the partition assigns to it.
pub proof fn lemma_visit_in_class(i: u16, n: u16, p: u16)
    requires
        1 <= n,
        i < n,
        worker_visit_seq(i, n).contains(p),
    ensures
        assigned_to_worker(p as int, i as int, n as int),
{
    lemma_ports_from_residue((i + 1) as u16, n, p);
}

/// A worker's walk skips nothing of its own class: every port of the walk's
/// residue class, from the first candidate up to `MAX_PORT`, is visited.
pub proof fn lemma_ports_from_complete(port: u16, stride: u16, p: u16)
    requires
        1 <= stride,
        port <= p,
        p as int % stride as int == port as int % stride as int,
    ensures
        ports_from(port, stride).contains(p),
    decreases MAX_PORT - port,
{
    let s = ports_from(port, stride);
    if p == port {
        assert(s[0] == port);
    } else {
        let d = stride as int;
        let pi = p as int;
        let qi = port as int;
        lemma_fundamental_div_mod(pi, d);
        lemma_fundamental_div_mod(qi, d);
        assert(pi - qi == d * (pi / d - qi / d)) by (nonlinear_arith)
            requires
                pi == d * (pi / d) + pi % d,
                qi == d * (qi / d) + qi % d,
                pi % d == qi % d,
        ;
        assert(pi - qi >= d) by (nonlinear_arith)
            requires
                pi - qi == d * (pi / d - qi / d),
                pi > qi,
                d >= 1,
        ;
        assert(MAX_PORT - port >= stride);
        let t = ports_from((port + stride) as u16, stride);
        assert(s == seq![port] + t);
        lemma_mod_multiples_vanish(1, port as int, stride as int);
        lemma_ports_from_complete((port + stride) as u16, stride, p);
        let w = choose|w: int| 0 <= w < t.len() && t[w] == p;
        assert(s[w + 1] == p);
        assert(s.contains(p));
    }
}

/// Coverage law: every port in `1..=MAX_PORT` is visited by the worker whose
/// share it falls in.
pub proof fn lemma_partition_visited(n: u16, p: u16)
    requires
        1 <= n,
        1 <= p,
    ensures
        exists|i: u16| i < n && #[trigger] worker_visit_seq(i, n).contains(p),
{
    lemma_partition(n as int, p as int);
    lemma_mod_bound(p - 1, n as int);
    lemma_mod_decreases((p - 1) as nat, n as nat);
    let i = ((p - 1) as int % n as int) as u16;
    assert(i < n);
    assert(i + 1 <= p);
    assert(p as int % n as int == (i + 1) as int % n as int);
    lemma_ports_from_complete((i + 1) as u16, n, p);
    assert(worker_visit_seq(i, n).contains(p));
}

/// Two different workers never visit the same port.
pub proof fn lemma_workers_disjoint(i1: u16, i2: u16, n: u16, p: u16)
    requires
        1 <= n,
        i1 < n,
        i2 < n,
        i1 != i2,
        worker_visit_seq(i1, n).contains(p),
    ensures
        !worker_visit_seq(i2, n).contains(p),
{
    lemma_visit_in_class(i1, n, p);
    if worker_visit_seq(i2, n).contains(p) {
        lemma_visit_in_class(i2, n, p);
        lemma_partition(n as int, p as int);
    }
}

} // verus!
