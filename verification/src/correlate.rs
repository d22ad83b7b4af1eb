//! The join of HTTP records against the temporal address index, the name
//! directory and the allow-list.
//!
//! A record is attributed in four steps, and dropped as soon as one fails:
//! the record has the attribute that holds the client's IP address, and its
//! value is text; the index names a hardware address that held that IP
//! address just before the record's timestamp; the directory has a name for
//! that hardware address; the name, in lower case, is on the allow-list.
//! A record that is dropped is no error: most traffic is of devices that
//! nobody asked about.
use crate::directory::NameDirectory;
use crate::http::{LogEntry, LogEntryView};
use crate::index::{owner_at, IpToMacLookup};
use crate::lease::LeaseView;
use crate::scan::ParseError;
use vstd::prelude::*;
use vstd::utf8::{decode_utf8, valid_utf8};

verus! {

/// An HTTP record with the device that issued it.
#[derive(Debug, PartialEq, Clone)]
pub struct Correlated {
    pub entry: LogEntry,
    pub mac_addr: String,
    /// The name of the device, in lower case.
    pub friendly_name: String,
}

/// The mathematical model of a [`Correlated`].
pub struct CorrelatedView {
    pub entry: LogEntryView,
    pub mac_addr: Seq<char>,
    pub friendly_name: Seq<char>,
}

impl View for Correlated {
    type V = CorrelatedView;

    open spec fn view(&self) -> CorrelatedView {
        CorrelatedView {
            entry: self.entry@,
            mac_addr: self.mac_addr@,
            friendly_name: self.friendly_name@,
        }
    }
}

/// What became of a line of the HTTP log.
#[derive(Debug, PartialEq, Clone)]
pub enum Outcome {
    /// The line is no HTTP record.
    Unparseable(ParseError),
    /// The record could not be attributed to a device on the allow-list.
    Dropped,
    /// The record and its device.
    Correlated(Correlated),
}

/// The mathematical model of an [`Outcome`].
pub enum OutcomeView {
    Unparseable(ParseError),
    Dropped,
    Correlated(CorrelatedView),
}

impl View for Outcome {
    type V = OutcomeView;

    open spec fn view(&self) -> OutcomeView {
        match *self {
            Outcome::Unparseable(e) => OutcomeView::Unparseable(e),
            Outcome::Dropped => OutcomeView::Dropped,
            Outcome::Correlated(found) => OutcomeView::Correlated(found@),
        }
    }
}

/// The device that a record comes from, as its hardware address and the
/// name that the directory has for it: the record has the attribute `key`,
/// its value is the text of an IP address, the index names the hardware
/// address that held that IP address just before the record's timestamp,
/// and the directory has a name for it.
pub open spec fn device_of(
    entry: LogEntryView,
    key: Seq<char>,
    index: Map<Seq<char>, Seq<LeaseView>>,
    names: Map<Seq<char>, Seq<char>>,
) -> Option<(Seq<char>, Seq<char>)> {
    if !entry.attrs.contains_key(key) || !valid_utf8(entry.attrs[key]) {
        None
    } else {
        match owner_at(index, decode_utf8(entry.attrs[key]), entry.datetime) {
            None => None,
            Some(mac_addr) => if names.contains_key(mac_addr) {
                Some((mac_addr, names[mac_addr]))
            } else {
                None
            },
        }
    }
}

/// The name `text` in lower case, as `str::to_lowercase` of the standard
/// library gives it.
pub uninterp spec fn lowercase(text: Seq<char>) -> Seq<char>;

/// The names that an allow-list holds.
pub uninterp spec fn allowed_names(allow_list: phf::Set<&'static str>) -> Set<Seq<char>>;

/// The record with its device, if the device's name in lower case is
/// allowed; nothing if it is not.
pub open spec fn kept_if_allowed(
    entry: LogEntryView,
    mac_addr: Seq<char>,
    lowered_name: Seq<char>,
    allowed: bool,
) -> Option<CorrelatedView> {
    if allowed {
        Some(CorrelatedView { entry, mac_addr, friendly_name: lowered_name })
    } else {
        None
    }
}

/// The correlated record of an HTTP record, if it has one: the record's
/// device is found, and its name in lower case is among `allowed`.
pub open spec fn correlated(
    entry: LogEntryView,
    key: Seq<char>,
    index: Map<Seq<char>, Seq<LeaseView>>,
    names: Map<Seq<char>, Seq<char>>,
    allowed: Set<Seq<char>>,
) -> Option<CorrelatedView> {
    match device_of(entry, key, index, names) {
        None => None,
        Some((mac_addr, name)) => kept_if_allowed(
            entry,
            mac_addr,
            lowercase(name),
            allowed.contains(lowercase(name)),
        ),
    }
}

/// What becomes of a line of the HTTP log.
pub open spec fn outcome_of(
    line: Seq<u8>,
    key: Seq<char>,
    index: Map<Seq<char>, Seq<LeaseView>>,
    names: Map<Seq<char>, Seq<char>>,
    allowed: Set<Seq<char>>,
) -> OutcomeView {
    match crate::http::line(line) {
        Err(e) => OutcomeView::Unparseable(e),
        Ok(entry) => match correlated(entry, key, index, names, allowed) {
            Some(found) => OutcomeView::Correlated(found),
            None => OutcomeView::Dropped,
        },
    }
}

/// The model of an optional pair of strings.
pub open spec fn pair_view(found: Option<(String, String)>) -> Option<(Seq<char>, Seq<char>)> {
    match found {
        Some((a, b)) => Some((a@, b@)),
        None => None,
    }
}

/// The model of an optional correlated record.
pub open spec fn correlated_view(found: Option<Correlated>) -> Option<CorrelatedView> {
    match found {
        Some(c) => Some(c@),
        None => None,
    }
}

/// Finds the device that a record comes from: its hardware address and the
/// name that the directory has for it, as it stands there.
///
/// `key` names the attribute that holds the client's IP address. The index
/// is asked at the record's own timestamp, so a lease that starts at that
/// very instant does not count yet.
pub fn resolve(
    entry: &LogEntry,
    key: &str,
    index: &IpToMacLookup,
    names: &NameDirectory,
) -> (r: Option<(String, String)>)
    ensures
        pair_view(r) == device_of(entry@, key@, index@, names@),
{
    let value = match entry.attrs.get(key) {
        Some(value) => value,
        None => {
            return None;
        },
    };
    let ip_addr = match core::str::from_utf8(value.as_slice()) {
        Ok(text) => text,
        Err(_) => {
            return None;
        },
    };
    let mac_addr = match index.get_mac(entry.datetime, ip_addr) {
        Some(mac_addr) => mac_addr,
        None => {
            return None;
        },
    };
    match names.get(mac_addr) {
        Some(name) => Some((mac_addr.to_owned(), name.to_owned())),
        None => None,
    }
}

/// Keeps the record with its device if the device is allowed, and drops it
/// if not.
pub fn keep_if_allowed(
    entry: LogEntry,
    mac_addr: String,
    lowered_name: String,
    allowed: bool,
) -> (r: Option<Correlated>)
    ensures
        correlated_view(r) == kept_if_allowed(entry@, mac_addr@, lowered_name@, allowed),
{
    if allowed {
        Some(Correlated { entry, mac_addr, friendly_name: lowered_name })
    } else {
        None
    }
}

/// Joins an HTTP record against the index, the directory and the
/// allow-list.
///
/// The result is the record with the hardware address of its device and the
/// device's name in lower case, or `None` where the record cannot be
/// attributed to an allowed device.
pub fn correlate(
    entry: LogEntry,
    key: &str,
    index: &IpToMacLookup,
    names: &NameDirectory,
    allow_list: &phf::Set<&'static str>,
) -> (r: Option<Correlated>)
    ensures
        correlated_view(r) == correlated(
            entry@,
            key@,
            index@,
            names@,
            allowed_names(*allow_list),
        ),
{
    match resolve(&entry, key, index, names) {
        Some((mac_addr, name)) => {
            let lowered = to_lowercase(name.as_str());
            let allowed = is_allowed(allow_list, lowered.as_str());
            keep_if_allowed(entry, mac_addr, lowered, allowed)
        },
        None => None,
    }
}

/// Parses a line of the HTTP log and joins its record against the index,
/// the directory and the allow-list.
///
/// A line that cannot be parsed is handed back with its error, for the
/// caller to report; a record that is dropped is not to be reported.
pub fn correlate_line(
    line: &[u8],
    key: &str,
    index: &IpToMacLookup,
    names: &NameDirectory,
    allow_list: &phf::Set<&'static str>,
) -> (r: Outcome)
    ensures
        r@ == outcome_of(line@, key@, index@, names@, allowed_names(*allow_list)),
{
    match LogEntry::new(line) {
        Err(e) => Outcome::Unparseable(e),
        Ok(entry) => match correlate(entry, key, index, names, allow_list) {
            Some(found) => Outcome::Correlated(found),
            None => Outcome::Dropped,
        },
    }
}

/// The sets of `phf`; they are only asked whether they hold a name.
#[verifier::external_type_specification]
#[verifier::external_body]
#[verifier::reject_recursive_types(T)]
pub struct ExPhfSet<T: 'static>(phf::Set<T>);

/// `str::to_lowercase` of the standard library: the string in lower case.
#[verifier::external_body]
fn to_lowercase(text: &str) -> (lowered: String)
    ensures
        lowered@ == lowercase(text@),
{
    text.to_lowercase()
}

/// `phf::Set::contains`: whether the set holds the name. The set is one that
/// `phf` built, by its macro or its generator.
#[verifier::external_body]
fn is_allowed(allow_list: &phf::Set<&'static str>, name: &str) -> (allowed: bool)
    ensures
        allowed == allowed_names(*allow_list).contains(name@),
{
    allow_list.contains(name)
}

} // verus!
