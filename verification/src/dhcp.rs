//! The grammar of the DHCP lease log.
//!
//! A line is the preamble, then `DHCP` and the keyword of a message. Only an
//! acknowledgement carries data: the IP address that was leased and the
//! hardware address that it was leased to, in one of two forms,
//! `DHCPACK on <ip> to <mac>` and `DHCPACK to <ip> (<mac>`. What follows the
//! message on the line is not read, so the bracket that closes the second
//! form may be missing.
use crate::calendar::{Timestamp, TimestampView};
use crate::preamble::{is_banner, lemma_preamble, preamble, preamble_at, preamble_text};
use crate::scan::{
    ascii_text, decode_range, digit, has_bytes, hex_digit, is_ascii_bytes, is_digit,
    is_hex_digit, lemma_ascii_is_utf8, lemma_ascii_text_bytes, lemma_bytes_between,
    lemma_bytes_split, lemma_joined, lemma_literal_missing, literal_end, match_text, parsed,
    ParseError, COLON, DOT,
};
use vstd::prelude::*;
use vstd::string::StringSliceAdditionalSpecFns;

verus! {

/// A DHCP message, as far as the log tells.
#[derive(Debug, PartialEq, Clone)]
pub enum DhcpMsg {
    Inform,
    Offer,
    /// A lease was granted: `ip_addr` now belongs to `mac_addr`. The name
    /// that the device gave for itself comes with it where the gateway
    /// recorded one.
    Ack { ip_addr: String, mac_addr: String, friendly_name: Option<String> },
    Nak,
    Request,
    Discover,
}

/// One line of the DHCP log.
#[derive(Debug, PartialEq, Clone)]
pub struct LogEntry {
    pub datetime: Timestamp,
    pub msg: DhcpMsg,
}

/// The mathematical model of a [`DhcpMsg`].
pub enum DhcpMsgView {
    Inform,
    Offer,
    Ack { ip_addr: Seq<char>, mac_addr: Seq<char>, friendly_name: Option<Seq<char>> },
    Nak,
    Request,
    Discover,
}

/// The mathematical model of a DHCP [`LogEntry`].
pub struct LogEntryView {
    pub datetime: TimestampView,
    pub msg: DhcpMsgView,
}

impl View for DhcpMsg {
    type V = DhcpMsgView;

    open spec fn view(&self) -> DhcpMsgView {
        match *self {
            DhcpMsg::Inform => DhcpMsgView::Inform,
            DhcpMsg::Offer => DhcpMsgView::Offer,
            DhcpMsg::Ack { ip_addr, mac_addr, friendly_name } => DhcpMsgView::Ack {
                ip_addr: ip_addr@,
                mac_addr: mac_addr@,
                friendly_name: match friendly_name {
                    Some(name) => Some(name@),
                    None => None,
                },
            },
            DhcpMsg::Nak => DhcpMsgView::Nak,
            DhcpMsg::Request => DhcpMsgView::Request,
            DhcpMsg::Discover => DhcpMsgView::Discover,
        }
    }
}

impl View for LogEntry {
    type V = LogEntryView;

    open spec fn view(&self) -> LogEntryView {
        LogEntryView { datetime: self.datetime@, msg: self.msg@ }
    }
}

/// A digit stands at position `i` of `s`.
pub open spec fn digit_at(s: Seq<u8>, i: int) -> bool {
    0 <= i < s.len() && is_digit(s[i])
}

/// The end of the run of digits that starts at `i`, cut after three digits.
pub open spec fn octet_run_end(s: Seq<u8>, i: int) -> int {
    if !digit_at(s, i) {
        i
    } else if !digit_at(s, i + 1) {
        i + 1
    } else if !digit_at(s, i + 2) {
        i + 2
    } else {
        i + 3
    }
}

/// Where `count` octets that start at `i` end: each is one to three digits,
/// and a dot stands between one and the next. The numbers are not checked
/// against 255.
pub open spec fn octets_end(s: Seq<u8>, i: int, count: nat) -> Option<int>
    decreases count,
{
    let end = octet_run_end(s, i);
    if count == 0 || end == i {
        None
    } else if count == 1 {
        Some(end)
    } else if end < s.len() && s[end] == DOT {
        octets_end(s, end + 1, (count - 1) as nat)
    } else {
        None
    }
}

/// An IP address at position `i`: four octets joined by dots. The value is
/// the text as it stands.
pub open spec fn ip_addr_at(s: Seq<u8>, i: int) -> Result<(Seq<char>, int), ParseError> {
    match octets_end(s, i, 4) {
        Some(end) => Ok((ascii_text(s.subrange(i, end)), end)),
        None => Err(ParseError::Malformed),
    }
}

/// A byte that may stand in a hardware address: a hexadecimal digit or a
/// colon.
pub open spec fn is_mac_byte(b: u8) -> bool {
    is_hex_digit(b) || b == COLON
}

/// A hardware address at position `i`: exactly 17 bytes, each a hexadecimal
/// digit or a colon, in any arrangement. The value is the text as it stands.
pub open spec fn mac_addr_at(s: Seq<u8>, i: int) -> Result<(Seq<char>, int), ParseError> {
    if 0 <= i && i + 17 <= s.len() && (forall|k: int| i <= k < i + 17 ==> is_mac_byte(s[k])) {
        Ok((ascii_text(s.subrange(i, i + 17)), i + 17))
    } else {
        Err(ParseError::Malformed)
    }
}

/// One form of what follows `DHCPACK`: the literal `before_ip`, an IP
/// address, the literal `before_mac` and a hardware address.
pub open spec fn ack_form_at(s: Seq<u8>, i: int, before_ip: Seq<u8>, before_mac: Seq<u8>) -> Result<
    (DhcpMsgView, int),
    ParseError,
> {
    match literal_end(s, i, before_ip) {
        None => Err(ParseError::Malformed),
        Some(ip_start) => match ip_addr_at(s, ip_start) {
            Err(e) => Err(e),
            Ok((ip_addr, ip_end)) => match literal_end(s, ip_end, before_mac) {
                None => Err(ParseError::Malformed),
                Some(mac_start) => match mac_addr_at(s, mac_start) {
                    Err(e) => Err(e),
                    Ok((mac_addr, end)) => Ok(
                        (DhcpMsgView::Ack { ip_addr, mac_addr, friendly_name: None }, end),
                    ),
                },
            },
        },
    }
}

/// What follows `DHCPACK`, at position `i`: ` on <ip> to <mac>` or, if that
/// does not match, ` to <ip> (<mac>`, each tried from `i`.
pub open spec fn dhcp_ack_at(s: Seq<u8>, i: int) -> Result<(DhcpMsgView, int), ParseError> {
    match ack_form_at(s, i, " on ".spec_bytes(), " to ".spec_bytes()) {
        Ok(found) => Ok(found),
        Err(_) => ack_form_at(s, i, " to ".spec_bytes(), " (".spec_bytes()),
    }
}

/// The keyword `word` stands at `i`, and the message it names ends after it.
pub open spec fn keyword_at(s: Seq<u8>, i: int, word: Seq<u8>, msg: DhcpMsgView) -> Option<
    (DhcpMsgView, int),
> {
    match literal_end(s, i, word) {
        Some(end) => Some((msg, end)),
        None => None,
    }
}

/// An acknowledgement stands at `i`: the keyword `ACK` and one of the two
/// forms of its tail.
pub open spec fn ack_at(s: Seq<u8>, i: int) -> Option<(DhcpMsgView, int)> {
    match literal_end(s, i, "ACK".spec_bytes()) {
        None => None,
        Some(tail) => match dhcp_ack_at(s, tail) {
            Ok(found) => Some(found),
            Err(_) => None,
        },
    }
}

/// The first of two alternatives that matches.
pub open spec fn or_else<T>(first: Option<T>, second: Option<T>) -> Option<T> {
    if first is Some {
        first
    } else {
        second
    }
}

/// A message at position `i`: `DHCP`, then the first alternative that
/// matches, tried in this order from the same position: `INFORM`, `OFFER`,
/// `ACK` with its tail, `NAK`, `REQUEST`, `DISCOVER`.
pub open spec fn dhcp_msg_at(s: Seq<u8>, i: int) -> Result<(DhcpMsgView, int), ParseError> {
    match literal_end(s, i, "DHCP".spec_bytes()) {
        None => Err(ParseError::Malformed),
        Some(k) => {
            let found = or_else(
                keyword_at(s, k, "INFORM".spec_bytes(), DhcpMsgView::Inform),
                or_else(
                    keyword_at(s, k, "OFFER".spec_bytes(), DhcpMsgView::Offer),
                    or_else(
                        ack_at(s, k),
                        or_else(
                            keyword_at(s, k, "NAK".spec_bytes(), DhcpMsgView::Nak),
                            or_else(
                                keyword_at(s, k, "REQUEST".spec_bytes(), DhcpMsgView::Request),
                                keyword_at(s, k, "DISCOVER".spec_bytes(), DhcpMsgView::Discover),
                            ),
                        ),
                    ),
                ),
            );
            match found {
                Some(message) => Ok(message),
                None => Err(ParseError::Malformed),
            }
        },
    }
}

/// A log line at position `i`: the preamble and a message.
pub open spec fn log_entry_at(s: Seq<u8>, i: int) -> Result<(LogEntryView, int), ParseError> {
    match preamble_at(s, i) {
        Err(e) => Err(e),
        Ok((datetime, start)) => match dhcp_msg_at(s, start) {
            Err(e) => Err(e),
            Ok((msg, end)) => Ok((LogEntryView { datetime, msg }, end)),
        },
    }
}

/// What a whole line says. Bytes after the message are not read.
pub open spec fn line(s: Seq<u8>) -> Result<LogEntryView, ParseError> {
    match log_entry_at(s, 0) {
        Ok((entry, _)) => Ok(entry),
        Err(e) => Err(e),
    }
}

/// Octets that were found are made of digits and dots, start with a digit
/// and end within the input.
pub proof fn lemma_octets(s: Seq<u8>, i: int, count: nat)
    requires
        0 <= i,
        octets_end(s, i, count) is Some,
    ensures
        i < octets_end(s, i, count)->0 <= s.len(),
        forall|k: int|
            i <= k < octets_end(s, i, count)->0 ==> is_digit(#[trigger] s[k]) || s[k] == DOT,
    decreases count,
{
    let end = octet_run_end(s, i);
    if count > 1 {
        lemma_octets(s, end + 1, (count - 1) as nat);
    }
}

/// The text of an IP address: four octets joined by dots and nothing else.
pub open spec fn is_ip_text(ip: Seq<u8>) -> bool {
    octets_end(ip, 0, 4) == Some(ip.len() as int)
}

/// The text of a hardware address: 17 hexadecimal digits or colons.
pub open spec fn is_mac_text(mac: Seq<u8>) -> bool {
    mac.len() == 17 && forall|k: int| 0 <= k < 17 ==> is_mac_byte(mac[k])
}

/// What follows `DHCPACK` in the first form, ` on <ip> to <mac>`, or in the
/// second, ` to <ip> (<mac>`.
pub open spec fn ack_tail_text(ip: Seq<u8>, mac: Seq<u8>, first_form: bool) -> Seq<u8> {
    if first_form {
        " on ".spec_bytes() + ip + " to ".spec_bytes() + mac
    } else {
        " to ".spec_bytes() + ip + " (".spec_bytes() + mac
    }
}

/// The acknowledgement of a lease in its first form, `DHCPACK on <ip> to
/// <mac>`, or in its second, `DHCPACK to <ip> (<mac>`.
pub open spec fn ack_text(ip: Seq<u8>, mac: Seq<u8>, first_form: bool) -> Seq<u8> {
    "DHCP".spec_bytes() + "ACK".spec_bytes() + ack_tail_text(ip, mac, first_form)
}

/// The acknowledgement that the texts of an IP address and of a hardware
/// address spell.
pub open spec fn ack_of(ip: Seq<u8>, mac: Seq<u8>) -> DhcpMsgView {
    DhcpMsgView::Ack { ip_addr: ascii_text(ip), mac_addr: ascii_text(mac), friendly_name: None }
}

/// The bytes of the literals of the grammar, as far as the alternatives are
/// told apart by them.
proof fn lemma_literals()
    ensures
        "DHCP".spec_bytes().len() == 4,
        "ACK".spec_bytes() == seq![65u8, 67, 75],
        "INFORM".spec_bytes().len() == 6 && "INFORM".spec_bytes()[0] == 73,
        "OFFER".spec_bytes().len() == 5 && "OFFER".spec_bytes()[0] == 79,
        " on ".spec_bytes() == seq![32u8, 111, 110, 32],
        " to ".spec_bytes() == seq![32u8, 116, 111, 32],
        " (".spec_bytes() == seq![32u8, 40],
{
    reveal_strlit("DHCP");
    reveal_strlit("ACK");
    reveal_strlit("INFORM");
    reveal_strlit("OFFER");
    reveal_strlit(" on ");
    reveal_strlit(" to ");
    reveal_strlit(" (");
    lemma_ascii_text_bytes("DHCP");
    lemma_ascii_text_bytes("ACK");
    lemma_ascii_text_bytes("INFORM");
    lemma_ascii_text_bytes("OFFER");
    lemma_ascii_text_bytes(" on ");
    lemma_ascii_text_bytes(" to ");
    lemma_ascii_text_bytes(" (");
    assert("ACK".spec_bytes() =~= seq![65u8, 67, 75]);
    assert(" on ".spec_bytes() =~= seq![32u8, 111, 110, 32]);
    assert(" to ".spec_bytes() =~= seq![32u8, 116, 111, 32]);
    assert(" (".spec_bytes() =~= seq![32u8, 40]);
}

/// Octets that make up a whole text are found in the same way where the
/// text stands in the input, unless a digit follows it.
proof fn lemma_octets_embedded(s: Seq<u8>, at: int, ip: Seq<u8>, j: int, count: nat)
    requires
        0 <= j,
        has_bytes(s, at, ip),
        !digit_at(s, at + ip.len()),
        octets_end(ip, j, count) == Some(ip.len() as int),
    ensures
        octets_end(s, at + j, count) == Some(at + ip.len()),
    decreases count,
{
    lemma_octets(ip, j, count);
    assert forall|k: int| 0 <= k < ip.len() implies s[at + k] == ip[k] by {
        assert(s.subrange(at, at + ip.len())[k] == s[at + k]);
    }
    assert forall|k: int| j <= k <= ip.len() implies digit_at(s, at + k) == digit_at(ip, k) by {
        if k < ip.len() {
            assert(s[at + k] == ip[k]);
        }
    }
    let end = octet_run_end(ip, j);
    assert(octet_run_end(s, at + j) == at + end);
    if count > 1 {
        assert(s[at + end] == ip[end]);
        lemma_octets_embedded(s, at, ip, end + 1, (count - 1) as nat);
    }
}

/// The text of an IP address is read as itself where it stands in the
/// input, unless a digit follows it.
proof fn lemma_ip_addr_found(s: Seq<u8>, at: int, ip: Seq<u8>)
    requires
        has_bytes(s, at, ip),
        is_ip_text(ip),
        !digit_at(s, at + ip.len()),
    ensures
        ip_addr_at(s, at) == Ok::<_, ParseError>((ascii_text(ip), at + ip.len())),
{
    lemma_octets_embedded(s, at, ip, 0, 4);
}

/// The text of a hardware address is read as itself where it stands in the
/// input.
proof fn lemma_mac_addr_found(s: Seq<u8>, at: int, mac: Seq<u8>)
    requires
        has_bytes(s, at, mac),
        is_mac_text(mac),
    ensures
        mac_addr_at(s, at) == Ok::<_, ParseError>((ascii_text(mac), at + 17)),
{
    assert forall|k: int| at <= k < at + 17 implies is_mac_byte(s[k]) by {
        assert(s.subrange(at, at + 17)[k - at] == s[k]);
    }
}

/// One form of the tail of an acknowledgement is read where its four pieces
/// stand one after the other, if the literal before the hardware address
/// starts with no digit.
proof fn lemma_ack_form_found(
    s: Seq<u8>,
    at: int,
    before_ip: Seq<u8>,
    ip: Seq<u8>,
    before_mac: Seq<u8>,
    mac: Seq<u8>,
)
    requires
        has_bytes(s, at, before_ip + ip + before_mac + mac),
        is_ip_text(ip),
        is_mac_text(mac),
        before_mac.len() > 0 && !is_digit(before_mac[0]),
    ensures
        ack_form_at(s, at, before_ip, before_mac) == Ok::<_, ParseError>(
            (ack_of(ip, mac), at + (before_ip + ip + before_mac + mac).len()),
        ),
{
    lemma_bytes_split(s, at, before_ip + ip + before_mac, mac);
    lemma_bytes_split(s, at, before_ip + ip, before_mac);
    lemma_bytes_split(s, at, before_ip, ip);
    let at_ip = at + before_ip.len();
    let at_sep = at_ip + ip.len();
    let at_mac = at_sep + before_mac.len();
    assert(s.subrange(at_sep, at_sep + before_mac.len())[0] == s[at_sep]);
    lemma_ip_addr_found(s, at_ip, ip);
    lemma_mac_addr_found(s, at_mac, mac);
}

/// The tail of an acknowledgement, in either form, is read where it stands.
proof fn lemma_ack_tail_found(s: Seq<u8>, at: int, ip: Seq<u8>, mac: Seq<u8>, first_form: bool)
    requires
        has_bytes(s, at, ack_tail_text(ip, mac, first_form)),
        is_ip_text(ip),
        is_mac_text(mac),
    ensures
        dhcp_ack_at(s, at) == Ok::<_, ParseError>(
            (ack_of(ip, mac), at + ack_tail_text(ip, mac, first_form).len()),
        ),
{
    lemma_literals();
    if first_form {
        lemma_ack_form_found(s, at, " on ".spec_bytes(), ip, " to ".spec_bytes(), mac);
    } else {
        lemma_ack_form_found(s, at, " to ".spec_bytes(), ip, " (".spec_bytes(), mac);
        let tail = ack_tail_text(ip, mac, first_form);
        assert(s.subrange(at, at + tail.len())[1] == s[at + 1]);
        assert(tail[1] == 116);
        lemma_literal_missing(s, at, " on ".spec_bytes(), 1);
        assert(ack_form_at(s, at, " on ".spec_bytes(), " to ".spec_bytes()) is Err);
    }
}

/// An acknowledgement is read where `DHCP`, `ACK` and its tail stand.
proof fn lemma_ack_keyword_found(s: Seq<u8>, at: int, found: (DhcpMsgView, int))
    requires
        has_bytes(s, at, "DHCP".spec_bytes() + "ACK".spec_bytes()),
        dhcp_ack_at(s, at + 7) == Ok::<_, ParseError>(found),
    ensures
        dhcp_msg_at(s, at) == Ok::<_, ParseError>(found),
{
    lemma_literals();
    lemma_bytes_split(s, at, "DHCP".spec_bytes(), "ACK".spec_bytes());
    assert(s.subrange(at + 4, at + 7)[0] == s[at + 4]);
    lemma_literal_missing(s, at + 4, "INFORM".spec_bytes(), 0);
    lemma_literal_missing(s, at + 4, "OFFER".spec_bytes(), 0);
    assert(ack_at(s, at + 4) == Some(found));
}

/// A message that spells the acknowledgement of a lease, in either form, is
/// read as that acknowledgement, whatever follows the hardware address: a
/// closing bracket, more text, or nothing.
pub proof fn lemma_ack_message(
    before: Seq<u8>,
    ip: Seq<u8>,
    mac: Seq<u8>,
    first_form: bool,
    rest: Seq<u8>,
)
    requires
        is_ip_text(ip),
        is_mac_text(mac),
    ensures
        dhcp_msg_at(before + ack_text(ip, mac, first_form) + rest, before.len() as int) == Ok::<
            _,
            ParseError,
        >((ack_of(ip, mac), (before.len() + ack_text(ip, mac, first_form).len()) as int)),
{
    lemma_literals();
    let keyword = "DHCP".spec_bytes() + "ACK".spec_bytes();
    let tail = ack_tail_text(ip, mac, first_form);
    let s = before + ack_text(ip, mac, first_form) + rest;
    let at = before.len() as int;
    lemma_bytes_between(before, keyword + tail, rest);
    lemma_bytes_split(s, at, keyword, tail);
    lemma_ack_tail_found(s, at + 7, ip, mac, first_form);
    lemma_ack_keyword_found(s, at, (ack_of(ip, mac), at + 7 + tail.len()));
}

/// A line that spells a valid timestamp, a banner and the acknowledgement of
/// a lease, in either form, is read as that acknowledgement at that instant,
/// whatever follows the hardware address.
pub proof fn lemma_ack_line(
    stamp: TimestampView,
    banner: Seq<u8>,
    ip: Seq<u8>,
    mac: Seq<u8>,
    first_form: bool,
    rest: Seq<u8>,
)
    requires
        stamp.is_valid(),
        0 <= stamp.date.year <= 9999,
        is_banner(banner),
        is_ip_text(ip),
        is_mac_text(mac),
    ensures
        line(preamble_text(stamp, banner) + ack_text(ip, mac, first_form) + rest) == Ok::<
            _,
            ParseError,
        >(LogEntryView { datetime: stamp, msg: ack_of(ip, mac) }),
{
    let head = preamble_text(stamp, banner);
    let message = ack_text(ip, mac, first_form);
    lemma_joined(head, message, rest);
    lemma_preamble(stamp, banner, message + rest);
    lemma_ack_message(head, ip, mac, first_form, rest);
}

impl LogEntry {
    /// Parses one line of the DHCP log.
    ///
    /// The result is an error exactly when the line does not start with a
    /// preamble and a message: [`ParseError::OutOfRange`] where the timestamp
    /// has the right shape and names no real instant,
    /// [`ParseError::Malformed`] otherwise. Callers usually treat the two
    /// alike: they report the line and go on.
    pub fn new(s: &[u8]) -> (r: Result<LogEntry, ParseError>)
        ensures
            match r {
                Ok(entry) => Ok(entry@),
                Err(e) => Err(e),
            } == line(s@),
    {
        match log_entry(s, 0) {
            Ok((entry, _)) => Ok(entry),
            Err(e) => Err(e),
        }
    }
}

/// Parses a log line that starts at `pos`: the preamble and a message.
pub fn log_entry(input: &[u8], pos: usize) -> (r: Result<(LogEntry, usize), ParseError>)
    ensures
        parsed(r) == log_entry_at(input@, pos as int),
{
    let (datetime, start) = match preamble(input, pos) {
        Ok(found) => found,
        Err(e) => {
            return Err(e);
        },
    };
    match dhcp_msg(input, start) {
        Ok((msg, end)) => Ok((LogEntry { datetime, msg }, end)),
        Err(e) => Err(e),
    }
}

/// Parses a message that starts at `pos`: `DHCP` and one of the keywords,
/// tried in a fixed order, each from the position after `DHCP`.
pub fn dhcp_msg(input: &[u8], pos: usize) -> (r: Result<(DhcpMsg, usize), ParseError>)
    ensures
        parsed(r) == dhcp_msg_at(input@, pos as int),
{
    let k = match match_text(input, pos, "DHCP") {
        Some(k) => k,
        None => {
            return Err(ParseError::Malformed);
        },
    };
    if let Some(end) = match_text(input, k, "INFORM") {
        return Ok((DhcpMsg::Inform, end));
    }
    if let Some(end) = match_text(input, k, "OFFER") {
        return Ok((DhcpMsg::Offer, end));
    }
    if let Some(tail) = match_text(input, k, "ACK") {
        if let Ok(found) = dhcp_ack(input, tail) {
            return Ok(found);
        }
    }
    if let Some(end) = match_text(input, k, "NAK") {
        return Ok((DhcpMsg::Nak, end));
    }
    if let Some(end) = match_text(input, k, "REQUEST") {
        return Ok((DhcpMsg::Request, end));
    }
    if let Some(end) = match_text(input, k, "DISCOVER") {
        return Ok((DhcpMsg::Discover, end));
    }
    Err(ParseError::Malformed)
}

/// Parses what follows `DHCPACK`, from `pos`: first as ` on <ip> to <mac>`,
/// then, from `pos` again, as ` to <ip> (<mac>`.
pub fn dhcp_ack(input: &[u8], pos: usize) -> (r: Result<(DhcpMsg, usize), ParseError>)
    ensures
        parsed(r) == dhcp_ack_at(input@, pos as int),
{
    match ack_form(input, pos, " on ", " to ") {
        Ok(found) => Ok(found),
        Err(_) => ack_form(input, pos, " to ", " ("),
    }
}

/// Parses one form of the tail of an acknowledgement.
fn ack_form(input: &[u8], pos: usize, before_ip: &str, before_mac: &str) -> (r: Result<
    (DhcpMsg, usize),
    ParseError,
>)
    ensures
        parsed(r) == ack_form_at(
            input@,
            pos as int,
            before_ip.spec_bytes(),
            before_mac.spec_bytes(),
        ),
{
    let ip_start = match match_text(input, pos, before_ip) {
        Some(p) => p,
        None => {
            return Err(ParseError::Malformed);
        },
    };
    let (ip_addr, ip_end) = match ip_addr(input, ip_start) {
        Ok(found) => found,
        Err(e) => {
            return Err(e);
        },
    };
    let mac_start = match match_text(input, ip_end, before_mac) {
        Some(p) => p,
        None => {
            return Err(ParseError::Malformed);
        },
    };
    match mac_addr(input, mac_start) {
        Ok((mac_addr, end)) => Ok((DhcpMsg::Ack { ip_addr, mac_addr, friendly_name: None }, end)),
        Err(e) => Err(e),
    }
}

/// Skips at most three digits from `pos` on and returns where they end.
fn octet_run(input: &[u8], pos: usize) -> (end: usize)
    ensures
        end == octet_run_end(input@, pos as int),
{
    let mut end: usize = pos;
    while end < input.len() && end - pos < 3 && digit(input[end])
        invariant
            pos <= end <= pos + 3,
            forall|k: int| pos <= k < end ==> digit_at(input@, k),
        decreases pos + 3 - end,
    {
        end += 1;
    }
    end
}

/// Parses an IP address that starts at `pos`: four runs of one to three
/// digits, joined by dots. The octets are not checked against 255.
pub fn ip_addr(input: &[u8], pos: usize) -> (r: Result<(String, usize), ParseError>)
    ensures
        parsed(r) == ip_addr_at(input@, pos as int),
{
    let mut at: usize = pos;
    let mut left: usize = 4;
    loop
        invariant
            1 <= left <= 4,
            octets_end(input@, pos as int, 4) == octets_end(input@, at as int, left as nat),
        decreases left,
    {
        let end = octet_run(input, at);
        if end == at {
            return Err(ParseError::Malformed);
        }
        if left == 1 {
            proof {
                lemma_octets(input@, pos as int, 4);
                let text = input@.subrange(pos as int, end as int);
                assert(is_ascii_bytes(text));
                lemma_ascii_is_utf8(text);
            }
            return match decode_range(input, pos, end) {
                Some(text) => Ok((text, end)),
                None => Err(ParseError::Malformed),
            };
        }
        if !(end < input.len() && input[end] == DOT) {
            return Err(ParseError::Malformed);
        }
        at = end + 1;
        left -= 1;
    }
}

/// Tells whether a byte may stand in a hardware address.
fn mac_byte(b: u8) -> (r: bool)
    ensures
        r == is_mac_byte(b),
{
    hex_digit(b) || b == COLON
}

/// Parses a hardware address that starts at `pos`: exactly 17 bytes, each a
/// hexadecimal digit or a colon. Where the colons stand is not checked.
pub fn mac_addr(input: &[u8], pos: usize) -> (r: Result<(String, usize), ParseError>)
    ensures
        parsed(r) == mac_addr_at(input@, pos as int),
{
    if pos > input.len() || input.len() - pos < 17 {
        return Err(ParseError::Malformed);
    }
    let mut k: usize = 0;
    while k < 17
        invariant
            k <= 17,
            pos + 17 <= input.len(),
            forall|j: int| pos <= j < pos + k ==> is_mac_byte(input@[j]),
        decreases 17 - k,
    {
        if !mac_byte(input[pos + k]) {
            return Err(ParseError::Malformed);
        }
        k += 1;
    }
    proof {
        let text = input@.subrange(pos as int, pos + 17);
        assert(is_ascii_bytes(text));
        lemma_ascii_is_utf8(text);
    }
    match decode_range(input, pos, pos + 17) {
        Some(text) => Ok((text, pos + 17)),
        None => Err(ParseError::Malformed),
    }
}

} // verus!
