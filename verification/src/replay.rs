//! Replaying the DHCP log: what each line adds to the lease history and to
//! the name directory.
//!
//! The caller reads the lines and hands them over one by one, in any order;
//! a line that cannot be parsed adds nothing and is handed back as an error
//! for the caller to report. When all lines are in, [`DhcpReplay::finish`]
//! freezes the history into the index that HTTP records are joined against.
use crate::dhcp::{DhcpMsg, DhcpMsgView, LogEntry, LogEntryView};
use crate::directory::{conflicting_name, with_name, NameDirectory};
use crate::index::{is_index, run_lists, with_lease, IpToMacBuilder, IpToMacLookup};
use crate::lease::LeaseView;
use crate::scan::ParseError;
use vstd::prelude::*;

verus! {

/// The state of a replay: the lease history and the name directory.
pub struct DhcpReplay {
    history: IpToMacBuilder,
    names: NameDirectory,
}

/// The mathematical model of a [`DhcpReplay`].
pub struct DhcpReplayView {
    pub history: Map<Seq<char>, Seq<LeaseView>>,
    pub names: Map<Seq<char>, Seq<char>>,
}

/// A device gave a name for itself while the directory has another name for
/// its hardware address. The directory keeps `kept`.
#[derive(Debug, PartialEq, Clone)]
pub struct NameConflict {
    pub mac_addr: String,
    pub kept: String,
    pub offered: String,
}

/// The mathematical model of a [`NameConflict`].
pub struct NameConflictView {
    pub mac_addr: Seq<char>,
    pub kept: Seq<char>,
    pub offered: Seq<char>,
}

impl View for DhcpReplay {
    type V = DhcpReplayView;

    closed spec fn view(&self) -> DhcpReplayView {
        DhcpReplayView { history: self.history@, names: self.names@ }
    }
}

impl View for NameConflict {
    type V = NameConflictView;

    open spec fn view(&self) -> NameConflictView {
        NameConflictView { mac_addr: self.mac_addr@, kept: self.kept@, offered: self.offered@ }
    }
}

/// The state after an entry of the log. An acknowledgement adds its lease
/// to the history of its IP address, and its device name, if it has one, to
/// the directory unless the hardware address has a name. Any other message
/// changes nothing.
pub open spec fn after_entry(state: DhcpReplayView, entry: LogEntryView) -> DhcpReplayView {
    match entry.msg {
        DhcpMsgView::Ack { ip_addr, mac_addr, friendly_name } => DhcpReplayView {
            history: with_lease(
                state.history,
                ip_addr,
                LeaseView { since: entry.datetime, mac_addr },
            ),
            names: match friendly_name {
                Some(name) => with_name(state.names, mac_addr, name),
                None => state.names,
            },
        },
        _ => state,
    }
}

/// The conflict that an entry of the log brings up: it is an
/// acknowledgement with a device name, and the directory has another name
/// for its hardware address.
pub open spec fn conflict_of(state: DhcpReplayView, entry: LogEntryView) -> Option<
    NameConflictView,
> {
    match entry.msg {
        DhcpMsgView::Ack { ip_addr, mac_addr, friendly_name: Some(offered) } => {
            match conflicting_name(state.names, mac_addr, offered) {
                Some(kept) => Some(NameConflictView { mac_addr, kept, offered }),
                None => None,
            }
        },
        _ => None,
    }
}

/// The state after a line of the log: that after its entry, or the same
/// state if the line cannot be parsed.
pub open spec fn after_line(state: DhcpReplayView, line: Seq<u8>) -> DhcpReplayView {
    match crate::dhcp::line(line) {
        Ok(entry) => after_entry(state, entry),
        Err(_) => state,
    }
}

/// What a line of the log brings up: the error if it cannot be parsed,
/// else the conflict of its entry, if any.
pub open spec fn report_of(state: DhcpReplayView, line: Seq<u8>) -> Result<
    Option<NameConflictView>,
    ParseError,
> {
    match crate::dhcp::line(line) {
        Ok(entry) => Ok(conflict_of(state, entry)),
        Err(e) => Err(e),
    }
}

/// The model of an optional conflict.
pub open spec fn conflict_view(conflict: Option<NameConflict>) -> Option<NameConflictView> {
    match conflict {
        Some(c) => Some(c@),
        None => None,
    }
}

impl DhcpReplay {
    /// The replay that has seen no line.
    pub fn new() -> (r: DhcpReplay)
        ensures
            r@.history == Map::<Seq<char>, Seq<LeaseView>>::empty(),
            r@.names == Map::<Seq<char>, Seq<char>>::empty(),
    {
        DhcpReplay { history: IpToMacBuilder::new(), names: NameDirectory::new() }
    }

    /// Takes note of an entry of the log and returns the name conflict that
    /// it brings up, if any.
    pub fn note(&mut self, entry: &LogEntry) -> (conflict: Option<NameConflict>)
        ensures
            final(self)@ == after_entry(old(self)@, entry@),
            conflict_view(conflict) == conflict_of(old(self)@, entry@),
    {
        match &entry.msg {
            DhcpMsg::Ack { ip_addr, mac_addr, friendly_name } => {
                let conflict = match friendly_name {
                    Some(offered) => {
                        match self.names.record(mac_addr.as_str(), offered.as_str()) {
                            Some(kept) => Some(
                                NameConflict {
                                    mac_addr: mac_addr.clone(),
                                    kept,
                                    offered: offered.clone(),
                                },
                            ),
                            None => None,
                        }
                    },
                    None => None,
                };
                self.history.add_dhcp_ack(entry.datetime, ip_addr.as_str(), mac_addr.as_str());
                conflict
            },
            _ => None,
        }
    }

    /// Parses a line of the log and takes note of its entry.
    ///
    /// A line that cannot be parsed changes nothing; its error is returned
    /// for the caller to report, and the replay goes on with the next line.
    pub fn feed(&mut self, line: &[u8]) -> (r: Result<Option<NameConflict>, ParseError>)
        ensures
            final(self)@ == after_line(old(self)@, line@),
            match r {
                Ok(conflict) => Ok(conflict_view(conflict)),
                Err(e) => Err(e),
            } == report_of(old(self)@, line@),
    {
        match LogEntry::new(line) {
            Ok(entry) => Ok(self.note(&entry)),
            Err(e) => Err(e),
        }
    }

    /// Ends the replay: freezes the history into the index and hands it out
    /// with the directory.
    pub fn finish(self) -> (r: (IpToMacLookup, NameDirectory))
        ensures
            r.0@ == run_lists(self@.history),
            is_index(r.0@),
            r.1@ == self@.names,
    {
        (self.history.finalize(), self.names)
    }
}

} // verus!
