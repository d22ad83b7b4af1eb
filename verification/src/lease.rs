//! Lease histories of one IP address: the acknowledgements that were seen
//! for it, their time order, the runs they collapse into, and the question
//! who held the address just before a given instant.
//!
//! A *run* is a stretch of time in which one hardware address held the IP
//! address. It is stood for by the first acknowledgement of that stretch:
//! an acknowledgement that names the same hardware address as the one before
//! it tells nothing new and is dropped.
use crate::calendar::{Timestamp, TimestampView};
use vstd::prelude::*;

verus! {

/// One acknowledgement for some IP address: from `since` on the address
/// belongs to `mac_addr`.
#[derive(Debug, PartialEq, Clone)]
pub struct Lease {
    pub since: Timestamp,
    pub mac_addr: String,
}

/// The mathematical model of a [`Lease`].
pub struct LeaseView {
    pub since: TimestampView,
    pub mac_addr: Seq<char>,
}

impl View for Lease {
    type V = LeaseView;

    open spec fn view(&self) -> LeaseView {
        LeaseView { since: self.since@, mac_addr: self.mac_addr@ }
    }
}

/// The models of a list of leases.
pub open spec fn lease_views(leases: Seq<Lease>) -> Seq<LeaseView> {
    Seq::new(leases.len(), |i: int| leases[i]@)
}

/// The leases stand in time order; leases of the same instant may stand in
/// any order.
pub open spec fn sorted_by_time(s: Seq<LeaseView>) -> bool {
    forall|i: int, j: int| 0 <= i <= j < s.len() ==> s[i].since.ordinal() <= s[j].since.ordinal()
}

/// The leases stand in time order and no two are of the same instant.
pub open spec fn strictly_increasing(s: Seq<LeaseView>) -> bool {
    forall|i: int, j: int| 0 <= i < j < s.len() ==> s[i].since.ordinal() < s[j].since.ordinal()
}

/// Tells of a lease whether it is of the instant with ordinal `t`.
pub open spec fn at_instant(t: int) -> spec_fn(LeaseView) -> bool {
    |lease: LeaseView| lease.since.ordinal() == t
}

/// `output` is `input` sorted by time, stably: it stands in time order, and
/// the leases of any one instant are the same in both and stand in the same
/// order.
pub open spec fn is_stable_sort(input: Seq<LeaseView>, output: Seq<LeaseView>) -> bool {
    &&& sorted_by_time(output)
    &&& forall|t: int| #[trigger] output.filter(at_instant(t)) == input.filter(at_instant(t))
}

/// The leases in time order, those of the same instant in the order in
/// which they came: the one list that is a stable sort of `raw` (see
/// [`lemma_stable_sort_is_unique`]).
pub open spec fn time_order(raw: Seq<LeaseView>) -> Seq<LeaseView> {
    choose|sorted: Seq<LeaseView>| is_stable_sort(raw, sorted)
}

/// The lease at `i` starts a run: it is the first of the list, or it names
/// another hardware address than the lease before it.
pub open spec fn starts_run(s: Seq<LeaseView>, i: int) -> bool {
    i == 0 || s[i].mac_addr != s[i - 1].mac_addr
}

/// The list with every stretch of leases that name the same hardware address
/// replaced by the first lease of the stretch: the leases that start a run,
/// in their order.
pub open spec fn collapse(s: Seq<LeaseView>) -> Seq<LeaseView>
    decreases s.len(),
{
    if s.len() == 0 {
        s
    } else if starts_run(s, s.len() - 1) {
        collapse(s.drop_last()).push(s.last())
    } else {
        collapse(s.drop_last())
    }
}

/// The positions of the leases that start a run, in rising order.
pub open spec fn run_starts(s: Seq<LeaseView>) -> Seq<int>
    decreases s.len(),
{
    if s.len() == 0 {
        Seq::empty()
    } else if starts_run(s, s.len() - 1) {
        run_starts(s.drop_last()).push(s.len() - 1)
    } else {
        run_starts(s.drop_last())
    }
}

/// The runs of the leases that were seen for one IP address: the leases put
/// in time order, then collapsed.
pub open spec fn run_list(raw: Seq<LeaseView>) -> Seq<LeaseView> {
    collapse(time_order(raw))
}

/// No run names the same hardware address as the run before it.
pub open spec fn no_repeats(runs: Seq<LeaseView>) -> bool {
    forall|i: int| 0 < i < runs.len() ==> runs[i].mac_addr != #[trigger] runs[i - 1].mac_addr
}

/// The hardware address of the last run that starts strictly before `query`,
/// if there is one. A run that starts at `query` exactly is not yet in
/// effect.
pub open spec fn owner_before(runs: Seq<LeaseView>, query: TimestampView) -> Option<Seq<char>>
    decreases runs.len(),
{
    if runs.len() == 0 {
        None
    } else if runs.last().since.ordinal() < query.ordinal() {
        Some(runs.last().mac_addr)
    } else {
        owner_before(runs.drop_last(), query)
    }
}

/// Dropping the last lease of a list drops it from the leases of its instant
/// and leaves those of the other instants as they are.
proof fn lemma_filter_drop_last(s: Seq<LeaseView>, t: int)
    requires
        s.len() > 0,
    ensures
        s.drop_last().filter(at_instant(t)) == if s.last().since.ordinal() == t {
            s.filter(at_instant(t)).drop_last()
        } else {
            s.filter(at_instant(t))
        },
        s.last().since.ordinal() == t ==> s.filter(at_instant(t)).len() > 0 && s.filter(
            at_instant(t),
        ).last() == s.last(),
{
    reveal(Seq::filter);
    let sub = s.drop_last().filter(at_instant(t));
    if s.last().since.ordinal() == t {
        assert(s.filter(at_instant(t)) == sub.push(s.last()));
        assert(sub.push(s.last()).drop_last() =~= sub);
    }
}

/// A list with no lease of any instant is empty.
proof fn lemma_filters_empty(s: Seq<LeaseView>)
    requires
        forall|t: int| (#[trigger] s.filter(at_instant(t))).len() == 0,
    ensures
        s.len() == 0,
{
    if s.len() > 0 {
        lemma_filter_drop_last(s, s.last().since.ordinal());
    }
}

/// Every lease of a list is among the leases of its instant, so the list of
/// that instant is not empty.
proof fn lemma_filter_holds(s: Seq<LeaseView>, i: int)
    requires
        0 <= i < s.len(),
    ensures
        s.filter(at_instant(s[i].since.ordinal())).len() > 0,
    decreases s.len(),
{
    let t = s[i].since.ordinal();
    lemma_filter_drop_last(s, t);
    if i < s.len() - 1 {
        lemma_filter_holds(s.drop_last(), i);
        assert(s.drop_last()[i] == s[i]);
    }
}

/// A list has a lease of every instant of which it has a lease listed.
proof fn lemma_filter_witness(s: Seq<LeaseView>, t: int)
    requires
        s.filter(at_instant(t)).len() > 0,
    ensures
        exists|i: int| 0 <= i < s.len() && (#[trigger] s[i]).since.ordinal() == t,
    decreases s.len(),
{
    reveal(Seq::filter);
    if s.len() > 0 {
        if s.last().since.ordinal() == t {
            assert(s[s.len() - 1].since.ordinal() == t);
        } else {
            lemma_filter_witness(s.drop_last(), t);
            let i = choose|i: int|
                0 <= i < s.drop_last().len() && (#[trigger] s.drop_last()[i]).since.ordinal() == t;
            assert(s[i].since.ordinal() == t);
        }
    }
}

/// A list of leases has at most one stable sort by time: two lists that
/// both are one are the same list.
pub proof fn lemma_stable_sort_is_unique(raw: Seq<LeaseView>, a: Seq<LeaseView>, b: Seq<LeaseView>)
    requires
        is_stable_sort(raw, a),
        is_stable_sort(raw, b),
    ensures
        a == b,
    decreases a.len(),
{
    assert forall|t: int| #[trigger] a.filter(at_instant(t)) == b.filter(at_instant(t)) by {
        assert(a.filter(at_instant(t)) == raw.filter(at_instant(t)));
        assert(b.filter(at_instant(t)) == raw.filter(at_instant(t)));
    }
    if a.len() == 0 {
        assert forall|t: int| (#[trigger] b.filter(at_instant(t))).len() == 0 by {
            reveal(Seq::filter);
            assert(a.filter(at_instant(t)) == b.filter(at_instant(t)));
        }
        lemma_filters_empty(b);
        assert(a =~= b);
    } else {
        let t = a.last().since.ordinal();
        lemma_filter_drop_last(a, t);
        assert(a.filter(at_instant(t)) == b.filter(at_instant(t)));
        lemma_filter_witness(b, t);
        assert(b.len() > 0);
        let u = b.last().since.ordinal();
        lemma_filter_drop_last(b, u);
        assert(a.filter(at_instant(u)) == b.filter(at_instant(u)));
        lemma_filter_witness(a, u);
        assert(t == u) by {
            let i = choose|i: int| 0 <= i < b.len() && (#[trigger] b[i]).since.ordinal() == t;
            let j = choose|j: int| 0 <= j < a.len() && (#[trigger] a[j]).since.ordinal() == u;
            assert(b[i].since.ordinal() <= b[b.len() - 1].since.ordinal());
            assert(a[j].since.ordinal() <= a[a.len() - 1].since.ordinal());
        }
        assert(a.last() == b.last());
        let (x, y) = (a.drop_last(), b.drop_last());
        assert forall|w: int| #[trigger] x.filter(at_instant(w)) == y.filter(at_instant(w)) by {
            lemma_filter_drop_last(a, w);
            lemma_filter_drop_last(b, w);
            assert(a.filter(at_instant(w)) == b.filter(at_instant(w)));
        }
        assert(sorted_by_time(x)) by {
            assert forall|i: int, j: int| 0 <= i <= j < x.len() implies x[i].since.ordinal()
                <= x[j].since.ordinal() by {
                assert(x[i] == a[i] && x[j] == a[j]);
            }
        }
        assert(sorted_by_time(y)) by {
            assert forall|i: int, j: int| 0 <= i <= j < y.len() implies y[i].since.ordinal()
                <= y[j].since.ordinal() by {
                assert(y[i] == b[i] && y[j] == b[j]);
            }
        }
        assert(is_stable_sort(x, x));
        assert(is_stable_sort(x, y));
        lemma_stable_sort_is_unique(x, x, y);
        assert(a =~= x.push(a.last()));
        assert(b =~= y.push(b.last()));
    }
}

/// The list in time order with one more lease put in: after every lease
/// that is not later than it, before every lease that is.
spec fn inserted(sorted: Seq<LeaseView>, lease: LeaseView) -> Seq<LeaseView>
    decreases sorted.len(),
{
    if sorted.len() == 0 || sorted.last().since.ordinal() <= lease.since.ordinal() {
        sorted.push(lease)
    } else {
        inserted(sorted.drop_last(), lease).push(sorted.last())
    }
}

/// The leases put in time order one by one, each after those that came
/// before it and are not later.
spec fn sorted_by_insertion(raw: Seq<LeaseView>) -> Seq<LeaseView>
    decreases raw.len(),
{
    if raw.len() == 0 {
        raw
    } else {
        inserted(sorted_by_insertion(raw.drop_last()), raw.last())
    }
}

/// Putting a lease into a list in time order leaves the list in time order
/// and adds the lease at the end of the leases of its instant.
proof fn lemma_inserted(sorted: Seq<LeaseView>, lease: LeaseView)
    requires
        sorted_by_time(sorted),
    ensures
        sorted_by_time(inserted(sorted, lease)),
        forall|i: int|
            0 <= i < inserted(sorted, lease).len() ==> (#[trigger] inserted(sorted, lease)[i])
                == lease || sorted.contains(inserted(sorted, lease)[i]),
        forall|t: int| #[trigger]
            inserted(sorted, lease).filter(at_instant(t)) == if lease.since.ordinal() == t {
                sorted.filter(at_instant(t)).push(lease)
            } else {
                sorted.filter(at_instant(t))
            },
    decreases sorted.len(),
{
    let out = inserted(sorted, lease);
    if sorted.len() == 0 || sorted.last().since.ordinal() <= lease.since.ordinal() {
        assert(out.drop_last() =~= sorted);
        assert forall|i: int| 0 <= i < out.len() implies (#[trigger] out[i]) == lease
            || sorted.contains(out[i]) by {
            if i < sorted.len() {
                assert(out[i] == sorted[i]);
            }
        }
        assert forall|t: int| #[trigger] out.filter(at_instant(t)) == if lease.since.ordinal()
            == t {
            sorted.filter(at_instant(t)).push(lease)
        } else {
            sorted.filter(at_instant(t))
        } by {
            lemma_filter_drop_last(out, t);
            if lease.since.ordinal() == t {
                let f = out.filter(at_instant(t));
                assert(f =~= f.drop_last().push(f.last()));
            }
        }
    } else {
        let front = sorted.drop_last();
        let last = sorted.last();
        let part = inserted(front, lease);
        assert(sorted_by_time(front)) by {
            assert forall|i: int, j: int| 0 <= i <= j < front.len() implies front[i].since.ordinal()
                <= front[j].since.ordinal() by {
                assert(front[i] == sorted[i] && front[j] == sorted[j]);
            }
        }
        lemma_inserted(front, lease);
        assert(out.drop_last() =~= part);
        assert forall|i: int| 0 <= i < out.len() implies (#[trigger] out[i]) == lease
            || sorted.contains(out[i]) by {
            if i < part.len() {
                assert(out[i] == part[i]);
                if part[i] != lease {
                    let j = choose|j: int| 0 <= j < front.len() && front[j] == part[i];
                    assert(sorted[j] == part[i]);
                }
            } else {
                assert(sorted[sorted.len() - 1] == out[i]);
            }
        }
        assert forall|i: int| 0 <= i < part.len() implies (#[trigger] part[i]).since.ordinal()
            <= last.since.ordinal() by {
            if part[i] != lease {
                let j = choose|j: int| 0 <= j < front.len() && front[j] == part[i];
                assert(sorted[j].since.ordinal() <= sorted[sorted.len() - 1].since.ordinal());
            }
        }
        assert forall|i: int, j: int| 0 <= i <= j < out.len() implies out[i].since.ordinal()
            <= out[j].since.ordinal() by {
            if j < part.len() {
                assert(out[i] == part[i] && out[j] == part[j]);
            } else if i < part.len() {
                assert(out[i] == part[i]);
            }
        }
        assert forall|t: int| #[trigger] out.filter(at_instant(t)) == if lease.since.ordinal()
            == t {
            sorted.filter(at_instant(t)).push(lease)
        } else {
            sorted.filter(at_instant(t))
        } by {
            lemma_filter_drop_last(out, t);
            lemma_filter_drop_last(sorted, t);
            assert(part.filter(at_instant(t)) == if lease.since.ordinal() == t {
                front.filter(at_instant(t)).push(lease)
            } else {
                front.filter(at_instant(t))
            });
            if last.since.ordinal() == t {
                let f = out.filter(at_instant(t));
                let g = sorted.filter(at_instant(t));
                assert(f =~= f.drop_last().push(f.last()));
                assert(g =~= g.drop_last().push(g.last()));
            }
        }
    }
}

/// Putting the leases in time order one by one sorts them stably.
proof fn lemma_sorted_by_insertion(raw: Seq<LeaseView>)
    ensures
        is_stable_sort(raw, sorted_by_insertion(raw)),
    decreases raw.len(),
{
    if raw.len() > 0 {
        let front = raw.drop_last();
        let before = sorted_by_insertion(front);
        lemma_sorted_by_insertion(front);
        lemma_inserted(before, raw.last());
        let out = sorted_by_insertion(raw);
        assert forall|t: int| #[trigger] out.filter(at_instant(t)) == raw.filter(
            at_instant(t),
        ) by {
            lemma_filter_drop_last(raw, t);
            assert(before.filter(at_instant(t)) == front.filter(at_instant(t)));
            if raw.last().since.ordinal() == t {
                let g = raw.filter(at_instant(t));
                assert(g =~= g.drop_last().push(g.last()));
            }
        }
    }
}

/// Every list of leases has a stable sort by time, and `time_order` is it:
/// it stands in time order and holds the leases of every instant as they
/// came.
pub proof fn lemma_time_order_sorts(raw: Seq<LeaseView>)
    ensures
        is_stable_sort(raw, time_order(raw)),
{
    lemma_sorted_by_insertion(raw);
}

/// A stable sort of a list is the list's time order.
pub proof fn lemma_time_order_is(raw: Seq<LeaseView>, sorted: Seq<LeaseView>)
    requires
        is_stable_sort(raw, sorted),
    ensures
        time_order(raw) == sorted,
{
    lemma_stable_sort_is_unique(raw, time_order(raw), sorted);
}

/// For leases that stand in time order already, the run list is the list
/// itself collapsed: every stretch of leases that
/// name the same hardware address is replaced by its first lease (see
/// [`lemma_collapse_keeps_run_starts`] for what collapsing keeps).
pub proof fn lemma_run_list_of_sorted(raw: Seq<LeaseView>)
    requires
        sorted_by_time(raw),
    ensures
        time_order(raw) == raw,
        run_list(raw) == collapse(raw),
{
    assert(is_stable_sort(raw, raw));
    lemma_time_order_is(raw, raw);
}

/// The runs of any list of leases stand in time order, and no run names the
/// same hardware address as the run before it. Where no two leases are of
/// the same instant, the runs start at instants that rise strictly.
pub proof fn lemma_run_list_is_ordered(raw: Seq<LeaseView>)
    ensures
        sorted_by_time(run_list(raw)),
        no_repeats(run_list(raw)),
        strictly_increasing(time_order(raw)) ==> strictly_increasing(run_list(raw)),
        raw.len() > 0 ==> run_list(raw).len() > 0,
{
    lemma_time_order_sorts(raw);
    lemma_collapse_keeps_order(time_order(raw));
    lemma_collapse_no_repeats(time_order(raw));
    lemma_collapse_keeps_run_starts(time_order(raw));
    if raw.len() > 0 {
        lemma_filter_holds(raw, 0);
        lemma_filter_witness(time_order(raw), raw[0].since.ordinal());
    }
}

/// The run list of a list of leases is made of the leases that start a run:
/// `run_starts` lists their positions in rising order, names every position
/// that starts a run and no other, and the run list holds the leases at
/// these positions. So every stretch of leases with the same hardware
/// address is stood for by its first lease, and the first lease of all is
/// always kept.
pub proof fn lemma_collapse_keeps_run_starts(s: Seq<LeaseView>)
    ensures
        run_starts(s).len() == collapse(s).len(),
        forall|k: int|
            0 <= k < run_starts(s).len() ==> 0 <= #[trigger] run_starts(s)[k] < s.len()
                && starts_run(s, run_starts(s)[k]) && collapse(s)[k] == s[run_starts(s)[k]],
        forall|j: int, k: int|
            0 <= j < k < run_starts(s).len() ==> run_starts(s)[j] < run_starts(s)[k],
        forall|i: int| 0 <= i < s.len() && starts_run(s, i) ==> run_starts(s).contains(i),
        s.len() > 0 ==> collapse(s).len() > 0 && collapse(s)[0] == s[0],
    decreases s.len(),
{
    if s.len() > 0 {
        let front = s.drop_last();
        let last = s.len() - 1;
        lemma_collapse_keeps_run_starts(front);
        assert forall|i: int| 0 <= i < front.len() implies starts_run(front, i) == starts_run(
            s,
            i,
        ) by {
            if i > 0 {
                assert(front[i] == s[i] && front[i - 1] == s[i - 1]);
            }
        }
        let at = run_starts(s);
        let before = run_starts(front);
        assert forall|i: int| 0 <= i < s.len() && starts_run(s, i) implies at.contains(i) by {
            if i < last {
                assert(before.contains(i));
                let k = choose|k: int| 0 <= k < before.len() && before[k] == i;
                assert(at[k] == i);
            } else {
                assert(at[at.len() - 1] == i);
            }
        }
        assert forall|k: int| 0 <= k < at.len() implies 0 <= #[trigger] at[k] < s.len()
            && starts_run(s, at[k]) && collapse(s)[k] == s[at[k]] by {
            if k < before.len() {
                assert(at[k] == before[k]);
                assert(front[before[k]] == s[before[k]]);
            }
        }
        assert forall|j: int, k: int| 0 <= j < k < at.len() implies at[j] < at[k] by {
            assert(at[j] == before[j]);
            if k < before.len() {
                assert(at[k] == before[k]);
            }
        }
    }
}

/// The last run of a list names the hardware address of the last lease.
proof fn lemma_collapse_last(s: Seq<LeaseView>)
    requires
        s.len() > 0,
    ensures
        collapse(s).len() > 0,
        collapse(s).last().mac_addr == s.last().mac_addr,
    decreases s.len(),
{
    if !starts_run(s, s.len() - 1) {
        lemma_collapse_last(s.drop_last());
    }
}

/// No run of a run list names the same hardware address as the run before
/// it.
pub proof fn lemma_collapse_no_repeats(s: Seq<LeaseView>)
    ensures
        no_repeats(collapse(s)),
    decreases s.len(),
{
    if s.len() > 0 {
        let front = s.drop_last();
        lemma_collapse_no_repeats(front);
        if front.len() > 0 {
            lemma_collapse_last(front);
        }
    }
}

/// Collapsing keeps the time order, and keeps it strict where it was.
pub proof fn lemma_collapse_keeps_order(s: Seq<LeaseView>)
    ensures
        sorted_by_time(s) ==> sorted_by_time(collapse(s)),
        strictly_increasing(s) ==> strictly_increasing(collapse(s)),
{
    lemma_collapse_keeps_run_starts(s);
    let at = run_starts(s);
    let runs = collapse(s);
    if sorted_by_time(s) {
        assert forall|i: int, j: int| 0 <= i <= j < runs.len() implies runs[i].since.ordinal()
            <= runs[j].since.ordinal() by {
            assert(runs[i] == s[at[i]] && runs[j] == s[at[j]]);
            if i < j {
                assert(at[i] < at[j]);
            }
        }
    }
    if strictly_increasing(s) {
        assert forall|i: int, j: int| 0 <= i < j < runs.len() implies runs[i].since.ordinal()
            < runs[j].since.ordinal() by {
            assert(runs[i] == s[at[i]] && runs[j] == s[at[j]]);
            assert(at[i] < at[j]);
        }
    }
}

/// In a list in time order, if exactly the first `count` runs start before
/// `query`, the owner before `query` is the hardware address of the last of
/// them, and nobody if there is none.
pub proof fn lemma_owner_before_sorted(runs: Seq<LeaseView>, query: TimestampView, count: int)
    requires
        0 <= count <= runs.len(),
        forall|i: int| 0 <= i < count ==> runs[i].since.ordinal() < query.ordinal(),
        forall|i: int| count <= i < runs.len() ==> runs[i].since.ordinal() >= query.ordinal(),
    ensures
        owner_before(runs, query) == if count == 0 {
            None
        } else {
            Some(runs[count - 1].mac_addr)
        },
    decreases runs.len(),
{
    if runs.len() > count {
        let front = runs.drop_last();
        assert forall|i: int| 0 <= i < front.len() implies front[i] == runs[i] by {}
        lemma_owner_before_sorted(front, query, count);
    }
}

/// Who is found where the runs start at instants that rise strictly:
/// a query after the start of run `i`, and not after the start of the next
/// run if there is one, is answered with the hardware address of run `i`;
/// a query at the very instant at which run `i` starts is answered with the
/// hardware address of the run before it, and with nothing for the first
/// run; a query not after the start of the first run is answered with
/// nothing.
pub proof fn lemma_lookup(runs: Seq<LeaseView>, query: TimestampView, i: int)
    requires
        strictly_increasing(runs),
        0 <= i < runs.len(),
    ensures
        runs[i].since.ordinal() < query.ordinal() && (i + 1 < runs.len() ==> query.ordinal()
            <= runs[i + 1].since.ordinal()) ==> owner_before(runs, query) == Some(
            runs[i].mac_addr,
        ),
        runs[i].since.ordinal() == query.ordinal() ==> owner_before(runs, query) == if i == 0 {
            None
        } else {
            Some(runs[i - 1].mac_addr)
        },
        query.ordinal() <= runs[0].since.ordinal() ==> owner_before(runs, query) is None,
{
    if runs[i].since.ordinal() < query.ordinal() && (i + 1 < runs.len() ==> query.ordinal()
        <= runs[i + 1].since.ordinal()) {
        lemma_owner_before_sorted(runs, query, i + 1);
    }
    if runs[i].since.ordinal() == query.ordinal() {
        lemma_owner_before_sorted(runs, query, i);
    }
    if query.ordinal() <= runs[0].since.ordinal() {
        lemma_owner_before_sorted(runs, query, 0);
    }
}

/// Nobody owns an address of which no run is known.
pub proof fn lemma_lookup_empty(query: TimestampView)
    ensures
        owner_before(Seq::empty(), query) is None,
{
}

impl Lease {
    /// The number by which leases are put in time order.
    pub fn time_key(&self) -> (key: u64)
        ensures
            key == self@.since.ordinal(),
    {
        self.since.ordinal()
    }
}

/// Puts the leases in time order and leaves those of the same instant in
/// the order in which they stood.
///
/// This is `sort_by_key` of the standard library with [`Lease::time_key`] as
/// the key. It is documented to order the items by their keys and to be
/// stable, that is, not to reorder items with equal keys.
#[verifier::external_body]
fn sort_by_time(leases: &mut Vec<Lease>)
    ensures
        is_stable_sort(lease_views(old(leases)@), lease_views(final(leases)@)),
{
    leases.sort_by_key(|lease| lease.time_key());
}

/// Collapses leases into runs: keeps the first lease, and every lease that
/// names another hardware address than the lease before it.
pub fn collapse_runs(leases: &Vec<Lease>) -> (runs: Vec<Lease>)
    ensures
        lease_views(runs@) == collapse(lease_views(leases@)),
{
    let ghost all = lease_views(leases@);
    let mut runs: Vec<Lease> = Vec::new();
    let mut i: usize = 0;
    while i < leases.len()
        invariant
            i <= leases@.len(),
            all == lease_views(leases@),
            lease_views(runs@) == collapse(all.take(i as int)),
        decreases leases@.len() - i,
    {
        let ghost upto = all.take(i + 1);
        assert(upto.drop_last() =~= all.take(i as int));
        assert(upto.last() == all[i as int]);
        assert(i > 0 ==> upto[i - 1] == all[i - 1]);
        if i == 0 || leases[i].mac_addr != leases[i - 1].mac_addr {
            let ghost before = lease_views(runs@);
            runs.push(Lease { since: leases[i].since, mac_addr: leases[i].mac_addr.clone() });
            assert(lease_views(runs@) =~= before.push(all[i as int]));
        }
        i += 1;
    }
    assert(all.take(i as int) =~= all);
    runs
}

/// The ownership timeline of one IP address: its runs, in time order.
#[derive(Debug, PartialEq)]
pub struct Timeline {
    runs: Vec<Lease>,
}

impl View for Timeline {
    type V = Seq<LeaseView>;

    closed spec fn view(&self) -> Seq<LeaseView> {
        lease_views(self.runs@)
    }
}

/// The model of an optional string slice.
pub open spec fn text_of(found: Option<&str>) -> Option<Seq<char>> {
    match found {
        Some(text) => Some(text@),
        None => None,
    }
}

impl Timeline {
    #[verifier::type_invariant]
    spec fn runs_in_order(self) -> bool {
        sorted_by_time(self@) && no_repeats(self@)
    }

    /// Makes the timeline of the leases that were seen for one IP address,
    /// in whatever order they were seen: puts them in time order, those of
    /// the same instant in the order in which they were seen, and collapses
    /// them into runs.
    pub fn from_leases(raw: Vec<Lease>) -> (timeline: Timeline)
        ensures
            timeline@ == run_list(lease_views(raw@)),
            sorted_by_time(timeline@),
            no_repeats(timeline@),
    {
        let mut leases = raw;
        sort_by_time(&mut leases);
        proof {
            lemma_time_order_is(lease_views(raw@), lease_views(leases@));
            lemma_collapse_keeps_order(lease_views(leases@));
            lemma_collapse_no_repeats(lease_views(leases@));
        }
        Timeline { runs: collapse_runs(&leases) }
    }

    /// The runs, in time order.
    pub fn runs(&self) -> (runs: &Vec<Lease>)
        ensures
            lease_views(runs@) == self@,
            sorted_by_time(self@),
            no_repeats(self@),
    {
        proof {
            use_type_invariant(self);
        }
        &self.runs
    }

    /// Finds who held the address just before `query`: the hardware address
    /// of the last run that starts strictly before `query`, or nobody if no
    /// run does. A run that starts at `query` exactly does not count yet.
    ///
    /// The runs stand in time order, which lets the search halve the list at
    /// each step.
    pub fn owner_before(&self, query: &Timestamp) -> (r: Option<&str>)
        ensures
            text_of(r) == owner_before(self@, query@),
    {
        proof {
            use_type_invariant(self);
        }
        let ghost all = self@;
        let runs = &self.runs;
        let instant = query.ordinal();
        let mut low: usize = 0;
        let mut high: usize = runs.len();
        while low < high
            invariant
                low <= high <= runs@.len(),
                all == lease_views(runs@),
                sorted_by_time(all),
                instant == query@.ordinal(),
                forall|i: int| 0 <= i < low ==> all[i].since.ordinal() < instant,
                forall|i: int| high <= i < all.len() ==> all[i].since.ordinal() >= instant,
            decreases high - low,
        {
            let middle = low + (high - low) / 2;
            assert(all[middle as int] == runs@[middle as int]@);
            if runs[middle].time_key() < instant {
                low = middle + 1;
            } else {
                high = middle;
            }
        }
        proof {
            lemma_owner_before_sorted(all, query@, low as int);
        }
        if low == 0 {
            None
        } else {
            assert(all[low - 1] == runs@[low - 1]@);
            Some(runs[low - 1].mac_addr.as_str())
        }
    }
}

} // verus!
