//! The collector's side of a scan: aggregation, ordering, and the report.

use crate::ports::MAX_PORT;
use crate::ports::lemma_worker_visits;
use crate::ports::lemma_workers_disjoint;
use crate::ports::strictly_increasing;
use crate::ports::worker_ports;
use crate::ports::worker_visit_seq;
use crate::text::decimal;
use crate::text::u16_decimal;
use vstd::multiset::Multiset;
use vstd::prelude::*;
use vstd::relations::total_ordering;
use vstd::seq_lib::lemma_sorted_unique;
use vstd::string::StringExecFns;

verus! {

/// The ports appear in ascending order (repeats allowed).
pub open spec fn sorted(s: Seq<u16>) -> bool {
    forall|a: int, b: int| 0 <= a < b < s.len() ==> s[a] <= s[b]
}

/// Sorts the collected ports ascending. The result is a reordering of the
/// input: same ports, same number of times each.
pub fn sort_ports(ports: Vec<u16>) -> (r: Vec<u16>)
    ensures
        sorted(r@),
        r@.to_multiset() == ports@.to_multiset(),
        r@.len() == ports@.len(),
        forall|p: u16| r@.contains(p) <==> ports@.contains(p),
        ports@.no_duplicates() ==> r@.no_duplicates(),
{
    broadcast use vstd::seq_lib::group_to_multiset_ensures;
    broadcast use vstd::multiset::group_multiset_axioms;

    let mut rest = ports;
    let mut out: Vec<u16> = Vec::new();
    while rest.len() > 0
        invariant
            out@.to_multiset().add(rest@.to_multiset()) == ports@.to_multiset(),
            sorted(out@),
            forall|a: int, b: int|
                0 <= a < out@.len() && 0 <= b < rest@.len() ==> out@[a] <= rest@[b],
        decreases rest@.len(),
    {
        let mut m: usize = 0;
        let mut k: usize = 1;
        while k < rest.len()
            invariant
                m < k <= rest@.len() || (k <= rest@.len() && m == 0),
                m < rest@.len(),
                rest@.len() > 0,
                forall|t: int| 0 <= t < k ==> rest@[m as int] <= #[trigger] rest@[t],
            decreases rest@.len() - k,
        {
            if rest[k] < rest[m] {
                m = k;
            }
            k += 1;
        }
        let ghost old_rest = rest@;
        let ghost old_out = out@;
        let x = rest.remove(m);
        out.push(x);
        proof {
            old_rest.to_multiset_ensures();
            old_out.to_multiset_ensures();
            assert(rest@ == old_rest.remove(m as int));
            assert(out@ == old_out.push(x));
            assert(old_rest.contains(old_rest[m as int]));
            assert(old_rest.remove(m as int).to_multiset() =~= old_rest.to_multiset().remove(
                old_rest[m as int],
            ));
            assert(old_out.push(x).to_multiset() =~= old_out.to_multiset().insert(x));
            assert(old_rest.to_multiset().count(x) > 0);
            assert(rest@.to_multiset() == old_rest.to_multiset().remove(x));
            assert(out@.to_multiset() == old_out.to_multiset().insert(x));
            assert(out@.to_multiset().add(rest@.to_multiset()) =~= old_out.to_multiset().add(
                old_rest.to_multiset(),
            ));
            assert forall|a: int, b: int|
                0 <= a < out@.len() && 0 <= b < rest@.len() implies out@[a] <= rest@[b] by {
                if b < m {
                    assert(rest@[b] == old_rest[b]);
                } else {
                    assert(rest@[b] == old_rest[b + 1]);
                }
                if a < old_out.len() {
                    assert(out@[a] == old_out[a]);
                } else {
                    assert(out@[a] == x);
                }
            }
        }
    }
    proof {
        assert(rest@.to_multiset() =~= Multiset::empty());
        assert(out@.to_multiset() =~= out@.to_multiset().add(rest@.to_multiset()));
        out@.to_multiset_ensures();
        ports@.to_multiset_ensures();
        assert forall|p: u16| out@.contains(p) == ports@.contains(p) by {
            assert(out@.to_multiset().count(p) == ports@.to_multiset().count(p));
        }
        if ports@.no_duplicates() {
            ports@.lemma_multiset_has_no_duplicates();
            out@.lemma_multiset_has_no_duplicates_conv();
        }
    }
    out
}

/// Order independence: however a scan's discoveries were interleaved on the
/// way to the collector, sorting yields the same report. Two collections
/// holding the same ports, each the same number of times, sort to the same
/// sequence — so two runs of a scan that discover the same open ports end in
/// the identical report.
pub proof fn lemma_report_order_independent(r1: Seq<u16>, r2: Seq<u16>)
    requires
        sorted(r1),
        sorted(r2),
        r1.to_multiset() == r2.to_multiset(),
    ensures
        r1 == r2,
{
    let leq = |x: u16, y: u16| x <= y;
    assert(total_ordering(leq)) by {
        assert(forall|x: u16| #[trigger] leq(x, x));
        assert(forall|x: u16, y: u16| #[trigger] leq(x, y) && #[trigger] leq(y, x) ==> x == y);
        assert(forall|x: u16, y: u16, z: u16|
            #[trigger] leq(x, y) && #[trigger] leq(y, z) ==> leq(x, z));
        assert(forall|x: u16, y: u16| #[trigger] leq(x, y) || #[trigger] leq(y, x));
    }
    assert(vstd::relations::sorted_by(r1, leq));
    assert(vstd::relations::sorted_by(r2, leq));
    lemma_sorted_unique(r1, r2, leq);
    assert(r1 =~= r2);
}

/// Idempotence: a report is determined by which ports it lists. Two reports
/// that are sorted, duplicate-free and list the same ports — as any two runs
/// of a scan with the same probe outcomes produce — are identical.
pub proof fn lemma_scan_idempotent(r1: Seq<u16>, r2: Seq<u16>)
    requires
        sorted(r1),
        sorted(r2),
        r1.no_duplicates(),
        r2.no_duplicates(),
        forall|p: u16| r1.contains(p) <==> r2.contains(p),
    ensures
        r1 == r2,
{
    broadcast use vstd::seq_lib::group_to_multiset_ensures;

    r1.lemma_multiset_has_no_duplicates();
    r2.lemma_multiset_has_no_duplicates();
    assert forall|p: u16| r1.to_multiset().count(p) == r2.to_multiset().count(p) by {
        if r1.contains(p) {
            assert(r1.to_multiset().count(p) == 1);
            assert(r2.to_multiset().count(p) == 1);
        } else {
            assert(r1.to_multiset().count(p) == 0);
            assert(r2.to_multiset().count(p) == 0);
        }
    }
    assert(r1.to_multiset() =~= r2.to_multiset());
    lemma_report_order_independent(r1, r2);
}

/// Port `p` is probed by some worker of an `n`-way scan.
pub open spec fn scanned(p: u16, n: u16) -> bool {
    exists|i: u16| i < n && #[trigger] worker_visit_seq(i, n).contains(p)
}

/// One worker's discoveries: the ports of its visit sequence whose probe
/// succeeded, in visit order. `open[p]` says whether a probe of port `p`
/// succeeds against the target.
pub fn worker_open_ports(open: &Vec<bool>, start_index: u16, stride: u16) -> (r: Vec<u16>)
    requires
        open@.len() == MAX_PORT as int + 1,
        1 <= stride,
        start_index < stride,
    ensures
        forall|p: u16|
            r@.contains(p) <==> worker_visit_seq(start_index, stride).contains(p) && open@[p as int],
        strictly_increasing(r@),
        r@.no_duplicates(),
{
    let visits = worker_ports(start_index, stride);
    proof {
        lemma_worker_visits(start_index, stride);
    }
    let mut out: Vec<u16> = Vec::new();
    let mut k: usize = 0;
    while k < visits.len()
        invariant
            k <= visits@.len(),
            visits@ == worker_visit_seq(start_index, stride),
            strictly_increasing(visits@),
            open@.len() == MAX_PORT as int + 1,
            forall|t: int| 0 <= t < visits@.len() ==> #[trigger] visits@[t] <= MAX_PORT,
            forall|p: u16|
                out@.contains(p) <==> visits@.take(k as int).contains(p) && open@[p as int],
            strictly_increasing(out@),
        decreases visits@.len() - k,
    {
        let p = visits[k];
        let ghost old_out = out@;
        if open[p as usize] {
            proof {
                assert forall|a: int| 0 <= a < out@.len() implies out@[a] < p by {
                    assert(out@.contains(out@[a]));
                    assert(visits@.take(k as int).contains(out@[a]));
                    let w = choose|w: int|
                        0 <= w < k && #[trigger] visits@.take(k as int)[w] == out@[a];
                    assert(visits@[w] == out@[a]);
                }
            }
            out.push(p);
            proof {
                assert forall|a: int, b: int|
                    0 <= a < b < out@.len() implies out@[a] < out@[b] by {
                    if b < out@.len() - 1 {
                        assert(old_out[a] < old_out[b]);
                    } else {
                        assert(out@[a] == old_out[a]);
                        assert(out@[b] == p);
                    }
                }
            }
        }
        proof {
            assert forall|q: u16|
                out@.contains(q) == (visits@.take(k as int + 1).contains(q) && open@[
                q as int]) by {
                if visits@.take(k as int + 1).contains(q) && open@[q as int] {
                    let w = choose|w: int|
                        0 <= w < k + 1 && #[trigger] visits@.take(k as int + 1)[w] == q;
                    if w < k {
                        assert(visits@.take(k as int)[w] == q);
                        assert(visits@.take(k as int).contains(q));
                        assert(old_out.contains(q));
                        let u = choose|u: int| 0 <= u < old_out.len() && old_out[u] == q;
                        assert(out@[u] == q);
                        assert(out@.contains(q));
                    } else {
                        assert(q == visits@[k as int]);
                        assert(out@[out@.len() - 1] == p);
                        assert(out@.contains(q));
                    }
                }
                if out@.contains(q) {
                    let w = choose|w: int| 0 <= w < out@.len() && out@[w] == q;
                    if w < old_out.len() {
                        assert(old_out[w] == q);
                        assert(old_out.contains(q));
                        assert(visits@.take(k as int).contains(q));
                        let u = choose|u: int|
                            0 <= u < k && #[trigger] visits@.take(k as int)[u] == q;
                        assert(visits@.take(k as int + 1)[u] == q);
                        assert(visits@.take(k as int + 1).contains(q));
                    } else {
                        assert(q == p);
                        assert(open@[q as int]);
                        assert(visits@.take(k as int + 1)[k as int] == q);
                        assert(visits@.take(k as int + 1).contains(q));
                    }
                }
            }
        }
        k += 1;
    }
    proof {
        assert(visits@.take(visits@.len() as int) =~= visits@);
        assert forall|a: int, b: int|
            0 <= a < out@.len() && 0 <= b < out@.len() && a != b implies out@[a] != out@[b] by {
            if a < b {
                assert(out@[a] < out@[b]);
            } else {
                assert(out@[b] < out@[a]);
            }
        }
    }
    out
}

/// The whole scan, given the probe outcomes: every worker's discoveries are
/// collected and sorted into the final report. The report lists exactly the
/// open ports of `1..=MAX_PORT`, each once, in ascending order — every open
/// port is probed by the worker whose share it falls in, none is missed —
/// and when nothing is open it is empty.
pub fn run_scan(open: &Vec<bool>, worker_count: u16) -> (r: Vec<u16>)
    requires
        open@.len() == MAX_PORT as int + 1,
        1 <= worker_count,
    ensures
        sorted(r@),
        r@.no_duplicates(),
        forall|p: u16| r@.contains(p) <==> 1 <= p && open@[p as int],
        forall|p: u16| r@.contains(p) <==> scanned(p, worker_count) && open@[p as int],
        (forall|q: int| 0 <= q <= MAX_PORT ==> !open@[q]) ==> r@.len() == 0,
{
    let mut collected: Vec<u16> = Vec::new();
    let mut i: u16 = 0;
    while i < worker_count
        invariant
            i <= worker_count,
            1 <= worker_count,
            open@.len() == MAX_PORT as int + 1,
            collected@.no_duplicates(),
            forall|p: u16|
                collected@.contains(p) <==> (exists|j: u16|
                    j < i && #[trigger] worker_visit_seq(j, worker_count).contains(p)) && open@[
                    p as int],
        decreases worker_count - i,
    {
        let mut found = worker_open_ports(open, i, worker_count);
        proof {
            assert forall|p: u16| collected@.contains(p) implies !found@.contains(p) by {
                if found@.contains(p) {
                    let j = choose|j: u16|
                        j < i && #[trigger] worker_visit_seq(j, worker_count).contains(p);
                    lemma_workers_disjoint(j, i, worker_count, p);
                }
            }
            lemma_no_duplicates_append(collected@, found@);
        }
        let ghost old_collected = collected@;
        let ghost found_view = found@;
        collected.append(&mut found);
        proof {
            assert forall|p: u16|
                collected@.contains(p) <==> (exists|j: u16|
                    j < i + 1 && #[trigger] worker_visit_seq(j, worker_count).contains(p))
                    && open@[p as int] by {
                assert(collected@ == old_collected + found_view);
                if collected@.contains(p) {
                    let w = choose|w: int| 0 <= w < collected@.len() && collected@[w] == p;
                    if w < old_collected.len() {
                        assert(old_collected.contains(p));
                    } else {
                        assert(found_view.contains(p));
                        assert(worker_visit_seq(i, worker_count).contains(p));
                    }
                }
                if (exists|j: u16|
                    j < i + 1 && #[trigger] worker_visit_seq(j, worker_count).contains(p))
                    && open@[p as int] {
                    let j = choose|j: u16|
                        j < i + 1 && #[trigger] worker_visit_seq(j, worker_count).contains(p);
                    if j < i {
                        assert(old_collected.contains(p));
                        let w = choose|w: int|
                            0 <= w < old_collected.len() && old_collected[w] == p;
                        assert(collected@[w] == p);
                    } else {
                        assert(worker_visit_seq(i, worker_count).contains(p));
                        assert(found_view.contains(p));
                        let w = choose|w: int|
                            0 <= w < found_view.len() && found_view[w] == p;
                        assert(collected@[old_collected.len() + w] == p);
                    }
                }
            }
        }
        i += 1;
    }
    let r = sort_ports(collected);
    proof {
        assert forall|p: u16| r@.contains(p) == (1 <= p && open@[p as int]) by {
            if 1 <= p && open@[p as int] {
                crate::ports::lemma_partition_visited(worker_count, p);
            }
            if r@.contains(p) {
                let j = choose|j: u16|
                    j < worker_count && #[trigger] worker_visit_seq(j, worker_count).contains(p);
                crate::ports::lemma_visit_in_class(j, worker_count, p);
            }
        }
        if r@.len() > 0 {
            assert(r@.contains(r@[0]));
        }
    }
    r
}

/// Concatenating two duplicate-free sequences with no element in common
/// yields a duplicate-free sequence.
proof fn lemma_no_duplicates_append(a: Seq<u16>, b: Seq<u16>)
    requires
        a.no_duplicates(),
        b.no_duplicates(),
        forall|x: u16| a.contains(x) ==> !b.contains(x),
    ensures
        (a + b).no_duplicates(),
{
    let c = a + b;
    assert forall|x: int, y: int| 0 <= x < y < c.len() implies c[x] != c[y] by {
        if y < a.len() {
            assert(c[x] == a[x] && c[y] == a[y]);
        } else if x >= a.len() {
            assert(c[x] == b[x - a.len()] && c[y] == b[y - a.len()]);
        } else {
            assert(c[x] == a[x] && c[y] == b[y - a.len()]);
            assert(a.contains(a[x]));
            assert(b.contains(b[y - a.len()]));
        }
    }
}

/// One line of the final report, as the scanner prints it.
pub fn port_line(p: u16) -> (r: String)
    ensures
        r@ == decimal(p as int) + " is open"@,
{
    let mut s = u16_decimal(p);
    s.append(" is open");
    s
}

} // verus!
