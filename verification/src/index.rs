//! The temporal address index: which hardware address held an IP address
//! just before a given instant.
//!
//! The index has two phases, each with a type of its own. An
//! [`IpToMacBuilder`] takes the acknowledgements of the DHCP log in whatever
//! order they come. [`IpToMacBuilder::finalize`] turns it into an
//! [`IpToMacLookup`], which holds for each IP address its runs in time order
//! and can only be asked.
use crate::calendar::{Timestamp, TimestampView};
use crate::lease::{
    lease_views, no_repeats, owner_before, run_list, sorted_by_time, text_of, Lease, LeaseView,
    Timeline,
};
use vstd::hash_map::StringHashMap;
use vstd::prelude::*;

verus! {

/// The leases that a history holds for an IP address; none for one that it
/// does not know.
pub open spec fn leases_of(history: Map<Seq<char>, Seq<LeaseView>>, ip_addr: Seq<char>) -> Seq<
    LeaseView,
> {
    if history.contains_key(ip_addr) {
        history[ip_addr]
    } else {
        Seq::empty()
    }
}

/// The history with one more lease for `ip_addr`, after those it has.
pub open spec fn with_lease(
    history: Map<Seq<char>, Seq<LeaseView>>,
    ip_addr: Seq<char>,
    lease: LeaseView,
) -> Map<Seq<char>, Seq<LeaseView>> {
    history.insert(ip_addr, leases_of(history, ip_addr).push(lease))
}

/// The index of a history: the same IP addresses, each with the runs of its
/// leases.
pub open spec fn run_lists(history: Map<Seq<char>, Seq<LeaseView>>) -> Map<
    Seq<char>,
    Seq<LeaseView>,
> {
    Map::new(
        |ip_addr: Seq<char>| history.contains_key(ip_addr),
        |ip_addr: Seq<char>| run_list(history[ip_addr]),
    )
}

/// Who held `ip_addr` just before `query`, by an index: the hardware address
/// of the last run of `ip_addr` that starts strictly before `query`. Nobody
/// if there is no such run, or if the index does not know the address.
pub open spec fn owner_at(
    index: Map<Seq<char>, Seq<LeaseView>>,
    ip_addr: Seq<char>,
    query: TimestampView,
) -> Option<Seq<char>> {
    if index.contains_key(ip_addr) {
        owner_before(index[ip_addr], query)
    } else {
        None
    }
}

/// The tables of a builder. `slots` gives for each IP address its place in
/// `ip_addrs` and `leases`, which run in parallel.
struct Tables {
    slots: StringHashMap<usize>,
    ip_addrs: Vec<String>,
    leases: Vec<Vec<Lease>>,
}

impl Tables {
    /// The slots name exactly the IP addresses of the list, each at its
    /// place.
    spec fn wf(self) -> bool {
        &&& self.ip_addrs@.len() == self.leases@.len()
        &&& forall|ip_addr: Seq<char>| #[trigger]
            self.slots@.contains_key(ip_addr) ==> self.slots@[ip_addr] < self.ip_addrs@.len()
                && self.ip_addrs@[self.slots@[ip_addr] as int]@ == ip_addr
        &&& forall|i: int|
            0 <= i < self.ip_addrs@.len() ==> self.slots@.contains_key(
                (#[trigger] self.ip_addrs@[i])@,
            ) && self.slots@[self.ip_addrs@[i]@] == i
    }

    spec fn history(self) -> Map<Seq<char>, Seq<LeaseView>> {
        Map::new(
            |ip_addr: Seq<char>| self.slots@.contains_key(ip_addr),
            |ip_addr: Seq<char>| lease_views(self.leases@[self.slots@[ip_addr] as int]@),
        )
    }

    fn new() -> (r: Tables)
        ensures
            r.wf(),
            r.history() == Map::<Seq<char>, Seq<LeaseView>>::empty(),
    {
        Tables { slots: StringHashMap::new(), ip_addrs: Vec::new(), leases: Vec::new() }
    }

    fn add(&mut self, ip_addr: &str, lease: Lease)
        requires
            old(self).wf(),
        ensures
            final(self).wf(),
            final(self).history() == with_lease(old(self).history(), ip_addr@, lease@),
    {
        let ghost before = *self;
        let known = match self.slots.get(ip_addr) {
            Some(slot) => Some(*slot),
            None => None,
        };
        match known {
            Some(slot) => {
                let ghost had = lease_views(self.leases@[slot as int]@);
                self.leases[slot].push(lease);
                assert(lease_views(self.leases@[slot as int]@) =~= had.push(lease@));
                assert forall|other: Seq<char>| #[trigger]
                    self.slots@.contains_key(other) && other != ip_addr@ implies {
                    let at = self.slots@[other] as int;
                    self.leases@[at] == before.leases@[at]
                } by {}
            },
            None => {
                let slot = self.ip_addrs.len();
                let mut first: Vec<Lease> = Vec::new();
                first.push(lease);
                assert(lease_views(first@) =~= Seq::<LeaseView>::empty().push(lease@));
                self.slots.insert(ip_addr.to_owned(), slot);
                self.ip_addrs.push(ip_addr.to_owned());
                self.leases.push(first);
                assert forall|i: int| 0 <= i < self.ip_addrs@.len() implies {
                    &&& self.slots@.contains_key((#[trigger] self.ip_addrs@[i])@)
                    &&& self.slots@[self.ip_addrs@[i]@] == i
                } by {}
            },
        }
    }
}

/// The first phase of the index: a history of leases, by IP address, in the
/// order in which they were added.
pub struct IpToMacBuilder {
    tables: Tables,
}

impl View for IpToMacBuilder {
    type V = Map<Seq<char>, Seq<LeaseView>>;

    closed spec fn view(&self) -> Map<Seq<char>, Seq<LeaseView>> {
        self.tables.history()
    }
}

/// The second phase of the index: for each IP address its runs, in time
/// order. It is made by [`IpToMacBuilder::finalize`] and never changes.
pub struct IpToMacLookup {
    timelines: StringHashMap<Timeline>,
}

impl View for IpToMacLookup {
    type V = Map<Seq<char>, Seq<LeaseView>>;

    closed spec fn view(&self) -> Map<Seq<char>, Seq<LeaseView>> {
        Map::new(
            |ip_addr: Seq<char>| self.timelines@.contains_key(ip_addr),
            |ip_addr: Seq<char>| self.timelines@[ip_addr]@,
        )
    }
}

/// Every run list of the index stands in time order, and none of its runs
/// names the same hardware address as the run before it.
pub open spec fn is_index(index: Map<Seq<char>, Seq<LeaseView>>) -> bool {
    forall|ip_addr: Seq<char>| #[trigger]
        index.contains_key(ip_addr) ==> sorted_by_time(index[ip_addr]) && no_repeats(
            index[ip_addr],
        )
}

impl IpToMacBuilder {
    #[verifier::type_invariant]
    spec fn tables_agree(self) -> bool {
        self.tables.wf()
    }

    /// A builder that has seen no lease.
    pub fn new() -> (r: IpToMacBuilder)
        ensures
            r@ == Map::<Seq<char>, Seq<LeaseView>>::empty(),
    {
        IpToMacBuilder { tables: Tables::new() }
    }

    /// Takes note of an acknowledgement: adds, after the leases that
    /// `ip_addr` has, the lease of it to `mac_addr` from `date` on.
    pub fn add_dhcp_ack(&mut self, date: Timestamp, ip_addr: &str, mac_addr: &str)
        ensures
            final(self)@ == with_lease(
                old(self)@,
                ip_addr@,
                LeaseView { since: date@, mac_addr: mac_addr@ },
            ),
    {
        proof {
            use_type_invariant(&*self);
        }
        let mut tables = Tables::new();
        core::mem::swap(&mut self.tables, &mut tables);
        tables.add(ip_addr, Lease { since: date, mac_addr: mac_addr.to_owned() });
        core::mem::swap(&mut self.tables, &mut tables);
    }

    /// Ends the first phase: puts the leases of each IP address in time
    /// order, those of the same instant in the order in which they were
    /// added, and collapses them into runs.
    pub fn finalize(self) -> (index: IpToMacLookup)
        ensures
            index@ == run_lists(self@),
            is_index(index@),
    {
        proof {
            use_type_invariant(&self);
        }
        let ghost slots = self.tables.slots@;
        let ghost names = self.tables.ip_addrs@;
        let ghost raw = self.tables.leases@;
        let Tables { slots: _, mut ip_addrs, mut leases } = self.tables;
        let mut timelines: StringHashMap<Timeline> = StringHashMap::new();
        while ip_addrs.len() > 0
            invariant
                ip_addrs@.len() == leases@.len() <= names.len() == raw.len(),
                ip_addrs@ == names.take(ip_addrs@.len() as int),
                leases@ == raw.take(ip_addrs@.len() as int),
                forall|ip_addr: Seq<char>| #[trigger]
                    slots.contains_key(ip_addr) ==> slots[ip_addr] < names.len()
                        && names[slots[ip_addr] as int]@ == ip_addr,
                forall|i: int|
                    0 <= i < names.len() ==> slots.contains_key((#[trigger] names[i])@)
                        && slots[names[i]@] == i,
                forall|ip_addr: Seq<char>| #[trigger]
                    timelines@.contains_key(ip_addr) <==> slots.contains_key(ip_addr)
                        && slots[ip_addr] >= ip_addrs@.len(),
                forall|ip_addr: Seq<char>| #[trigger]
                    timelines@.contains_key(ip_addr) ==> {
                        &&& timelines@[ip_addr]@ == run_list(
                            lease_views(raw[slots[ip_addr] as int]@),
                        )
                        &&& sorted_by_time(timelines@[ip_addr]@)
                        &&& no_repeats(timelines@[ip_addr]@)
                    },
            decreases ip_addrs@.len(),
        {
            let ip_addr = ip_addrs.pop().unwrap();
            let raw_leases = leases.pop().unwrap();
            let timeline = Timeline::from_leases(raw_leases);
            timelines.insert(ip_addr, timeline);
        }
        IpToMacLookup { timelines }
    }
}

impl IpToMacLookup {
    #[verifier::type_invariant]
    spec fn runs_in_order(self) -> bool {
        is_index(self@)
    }

    /// Tells which hardware address held `ip_addr` just before `date`: that
    /// of the last run of `ip_addr` that starts strictly before `date`.
    ///
    /// A run that starts at `date` exactly does not count yet: a request at
    /// the very instant of a new lease is attributed to the owner before.
    /// The answer is `None` where no run starts before `date`, and for an
    /// address that the index does not know.
    pub fn get_mac(&self, date: Timestamp, ip_addr: &str) -> (r: Option<&str>)
        ensures
            text_of(r) == owner_at(self@, ip_addr@, date@),
            is_index(self@),
    {
        proof {
            use_type_invariant(self);
        }
        match self.timelines.get(ip_addr) {
            Some(timeline) => timeline.owner_before(&date),
            None => None,
        }
    }

    /// Tells whether the index has runs for `ip_addr`.
    pub fn knows(&self, ip_addr: &str) -> (r: bool)
        ensures
            r == self@.contains_key(ip_addr@),
    {
        self.timelines.contains_key(ip_addr)
    }
}

} // verus!
