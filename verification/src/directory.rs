//! The name directory: the name under which each hardware address is known.
//!
//! The directory keeps the first name that it is told for a hardware
//! address. A later name for the same address never replaces it; where the
//! later name differs, the directory says so and the caller may report it.
use crate::lease::text_of;
use vstd::hash_map::StringHashMap;
use vstd::prelude::*;

verus! {

/// The directory after it was told `friendly_name` for `mac_addr`: the name
/// is added if the address had none, and nothing changes if it had one.
pub open spec fn with_name(
    names: Map<Seq<char>, Seq<char>>,
    mac_addr: Seq<char>,
    friendly_name: Seq<char>,
) -> Map<Seq<char>, Seq<char>> {
    if names.contains_key(mac_addr) {
        names
    } else {
        names.insert(mac_addr, friendly_name)
    }
}

/// The name that stands against `friendly_name`: the one that the directory
/// has for `mac_addr`, if it has one and it is another name.
pub open spec fn conflicting_name(
    names: Map<Seq<char>, Seq<char>>,
    mac_addr: Seq<char>,
    friendly_name: Seq<char>,
) -> Option<Seq<char>> {
    if names.contains_key(mac_addr) && names[mac_addr] != friendly_name {
        Some(names[mac_addr])
    } else {
        None
    }
}

/// The first name wins: once a hardware address has a name, telling the
/// directory any name for it changes nothing, and the name it has is the one
/// it was told first.
pub proof fn lemma_first_name_wins(
    names: Map<Seq<char>, Seq<char>>,
    mac_addr: Seq<char>,
    first: Seq<char>,
    later: Seq<char>,
)
    ensures
        with_name(with_name(names, mac_addr, first), mac_addr, later) == with_name(
            names,
            mac_addr,
            first,
        ),
        !names.contains_key(mac_addr) ==> with_name(names, mac_addr, first)[mac_addr] == first,
        names.contains_key(mac_addr) ==> with_name(names, mac_addr, later)[mac_addr]
            == names[mac_addr],
{
}

/// A mapping from hardware addresses to device names.
pub struct NameDirectory {
    names: StringHashMap<String>,
}

impl View for NameDirectory {
    type V = Map<Seq<char>, Seq<char>>;

    closed spec fn view(&self) -> Map<Seq<char>, Seq<char>> {
        Map::new(
            |mac_addr: Seq<char>| self.names@.contains_key(mac_addr),
            |mac_addr: Seq<char>| self.names@[mac_addr]@,
        )
    }
}

impl NameDirectory {
    /// The directory that knows no name.
    pub fn new() -> (r: NameDirectory)
        ensures
            r@ == Map::<Seq<char>, Seq<char>>::empty(),
    {
        NameDirectory { names: StringHashMap::new() }
    }

    /// Tells the directory that the device with `mac_addr` calls itself
    /// `friendly_name`.
    ///
    /// The name is kept if it is the first for that address. If the address
    /// has another name already, that name stays and is returned, for the
    /// caller to report the conflict.
    pub fn record(&mut self, mac_addr: &str, friendly_name: &str) -> (kept: Option<String>)
        ensures
            final(self)@ == with_name(old(self)@, mac_addr@, friendly_name@),
            match kept {
                Some(name) => Some(name@),
                None => None,
            } == conflicting_name(old(self)@, mac_addr@, friendly_name@),
    {
        let known = match self.names.get(mac_addr) {
            Some(name) => Some(name.clone()),
            None => None,
        };
        match known {
            Some(name) => {
                if crate::scan::same_text(name.as_str(), friendly_name) {
                    None
                } else {
                    Some(name)
                }
            },
            None => {
                self.names.insert(mac_addr.to_owned(), friendly_name.to_owned());
                None
            },
        }
    }

    /// The name of the device with `mac_addr`, if the directory has one.
    pub fn get(&self, mac_addr: &str) -> (r: Option<&str>)
        ensures
            text_of(r) == if self@.contains_key(mac_addr@) {
                Some(self@[mac_addr@])
            } else {
                None
            },
    {
        match self.names.get(mac_addr) {
            Some(name) => Some(name.as_str()),
            None => None,
        }
    }
}

} // verus!
