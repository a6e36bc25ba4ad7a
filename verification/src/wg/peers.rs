//! The state of the peers of an interface, as `wg show <device> dump` tells it.
//!
//! That format is meant for programs: a line per peer, with tabs between the
//! fields. It ties an address seen in the tunnel to the public key of the
//! client that uses it.

use vstd::arithmetic::power2;
use vstd::prelude::*;
use vstd::slice::slice_subrange;

use crate::fault::IoFault;
use crate::ip;
use crate::ip::IpAddr;
use crate::text;

use super::error::WgError;
use super::server;

verus! {

/// What `wg` writes for an empty field.
pub const NONE: &'static str = "(none)";

/// What `wg` writes for a setting that is off.
pub const OFF: &'static str = "off";

/// What a peer is like at some moment.
#[derive(Debug, Clone, PartialEq, Eq)]
pub struct PeerStatus {
    /// The public key of the client, in base64: its identity.
    pub public_key: String,
    /// The public address it speaks from, `None` if it never did.
    pub endpoint: Option<String>,
    /// The addresses routed to it, in CIDR notation.
    pub allowed_ips: Vec<String>,
    /// When it last made a handshake, in seconds since 1970, `None` if never.
    pub latest_handshake: Option<u64>,
    /// How many bytes came from it since the interface went up.
    pub transfer_rx: u64,
    /// How many bytes went to it.
    pub transfer_tx: u64,
    /// Its keepalive in seconds, `None` if it is off.
    pub persistent_keepalive: Option<u16>,
}

/// What an interface and its peers are like at some moment.
#[derive(Debug, Clone, PartialEq, Eq)]
pub struct DeviceStatus {
    /// The device asked about (`wg0` on Linux, `utunN` on macOS).
    pub device: String,
    /// The public key of the server.
    pub public_key: String,
    /// The UDP port listened on.
    pub listen_port: u16,
    /// The peers.
    pub peers: Vec<PeerStatus>,
}

/// What a peer is, its texts taken by their characters.
#[verifier::ext_equal]
pub struct PeerModel {
    /// The public key.
    pub public_key: Seq<char>,
    /// The public address.
    pub endpoint: Option<Seq<char>>,
    /// The addresses routed to it.
    pub allowed_ips: Seq<Seq<char>>,
    /// When it last made a handshake.
    pub latest_handshake: Option<u64>,
    /// How many bytes came from it.
    pub transfer_rx: u64,
    /// How many bytes went to it.
    pub transfer_tx: u64,
    /// Its keepalive.
    pub persistent_keepalive: Option<u16>,
}

impl View for PeerStatus {
    type V = PeerModel;

    open spec fn view(&self) -> PeerModel {
        PeerModel {
            public_key: self.public_key@,
            endpoint: text::option_view(self.endpoint),
            allowed_ips: text::string_views(self.allowed_ips@),
            latest_handshake: self.latest_handshake,
            transfer_rx: self.transfer_rx,
            transfer_tx: self.transfer_tx,
            persistent_keepalive: self.persistent_keepalive,
        }
    }
}

/// What peers are.
pub open spec fn peer_views(peers: Seq<PeerStatus>) -> Seq<PeerModel> {
    Seq::new(peers.len(), |i: int| peers[i]@)
}

// ---------------------------------------------------------------------------
// Reading
// ---------------------------------------------------------------------------

/// What a field says, if it says anything.
pub open spec fn field_value(field: Seq<char>) -> Option<Seq<char>> {
    let inside = text::trimmed(field);
    if inside.len() == 0 || inside == NONE@ || inside == OFF@ {
        None
    } else {
        Some(inside)
    }
}

/// The number in a field, zero where it is none.
pub open spec fn field_number(field: Seq<char>, max: nat) -> nat {
    match text::unsigned_value(field, max) {
        Some(n) => n,
        None => 0,
    }
}

/// Texts without the white space around each.
pub open spec fn each_trimmed(texts: Seq<Seq<char>>) -> Seq<Seq<char>> {
    Seq::new(texts.len(), |i: int| text::trimmed(texts[i]))
}

/// The peer that the fields of a line describe.
pub open spec fn fields_peer(fields: Seq<Seq<char>>) -> PeerModel {
    let handshake = field_number(fields[4], u64::MAX as nat);
    PeerModel {
        public_key: fields[0],
        endpoint: field_value(fields[2]),
        allowed_ips: match field_value(fields[3]) {
            Some(ips) => each_trimmed(text::pieces(ips, ',')),
            None => Seq::empty(),
        },
        latest_handshake: if handshake > 0 {
            Some(handshake as u64)
        } else {
            None
        },
        transfer_rx: field_number(fields[5], u64::MAX as nat) as u64,
        transfer_tx: field_number(fields[6], u64::MAX as nat) as u64,
        persistent_keepalive: match field_value(fields[7]) {
            Some(seconds) => match text::unsigned_value(seconds, u16::MAX as nat) {
                Some(n) => Some(n as u16),
                None => None,
            },
            None => None,
        },
    }
}

/// The peer that a line describes, if it has enough fields.
pub open spec fn line_peer(line: Seq<char>) -> Option<PeerModel> {
    let fields = text::pieces(line, '\t');
    if fields.len() < 8 {
        None
    } else {
        Some(fields_peer(fields))
    }
}

/// The peers that lines describe; those that describe none are passed over.
pub open spec fn lines_peers(lines: Seq<Seq<char>>) -> Seq<PeerModel>
    decreases lines.len(),
{
    if lines.len() == 0 {
        Seq::empty()
    } else {
        let before = lines_peers(lines.drop_last());
        match line_peer(lines.last()) {
            Some(peer) => before.push(peer),
            None => before,
        }
    }
}

/// The lines that hold more than white space.
pub open spec fn filled(lines: Seq<Seq<char>>) -> Seq<Seq<char>>
    decreases lines.len(),
{
    if lines.len() == 0 {
        Seq::empty()
    } else {
        let before = filled(lines.drop_last());
        if text::trimmed(lines.last()).len() > 0 {
            before.push(lines.last())
        } else {
            before
        }
    }
}

/// What an error message of the reader says.
pub open spec fn dump_fault(device: Seq<char>, reason: Seq<char>) -> Seq<char> {
    "wg show "@ + device + reason
}

/// A result is what the output of `wg show <device> dump` says: a line on the
/// interface, then one for each peer.
pub open spec fn describes(
    r: Result<DeviceStatus, WgError>,
    device: Seq<char>,
    raw: Seq<char>,
) -> bool {
    let lines = filled(text::lines(raw));
    if lines.len() == 0 {
        r matches Err(WgError::InvalidConfig(said)) && said@ == dump_fault(
            device,
            " dump: sortie vide"@,
        )
    } else {
        let header = text::pieces(lines[0], '\t');
        if header.len() < 3 {
            r matches Err(WgError::InvalidConfig(said)) && said@ == dump_fault(
                device,
                " dump: en-tête illisible"@,
            )
        } else {
            &&& r matches Ok(status)
            &&& status.device@ == device
            &&& status.public_key@ == header[1]
            &&& status.listen_port == field_number(header[2], u16::MAX as nat)
            &&& peer_views(status.peers@) == lines_peers(lines.skip(1))
        }
    }
}

/// The error for an output that cannot be read.
fn unreadable(device: &str, reason: &str) -> (r: WgError)
    ensures
        r matches WgError::InvalidConfig(said) && said@ == dump_fault(device@, reason@),
{
    let mut said = text::copy("wg show ");
    said.append(device);
    said.append(reason);
    WgError::InvalidConfig(said)
}

/// Keeps the lines that hold more than white space.
fn keep_filled(lines: &Vec<Vec<char>>) -> (r: Vec<Vec<char>>)
    ensures
        text::views(r@) == filled(text::views(lines@)),
{
    let ghost all = text::views(lines@);
    let mut out: Vec<Vec<char>> = Vec::new();
    let mut i: usize = 0;
    assert(text::views(out@) =~= filled(all.take(0)));
    while i < lines.len()
        invariant
            i <= lines@.len(),
            all == text::views(lines@),
            text::views(out@) == filled(all.take(i as int)),
        decreases lines@.len() - i,
    {
        assert(all.take(i + 1).drop_last() =~= all.take(i as int));
        assert(all.take(i + 1).last() == lines@[i as int]@);
        if text::trim(lines[i].as_slice()).len() > 0 {
            let ghost out_before = out@;
            let kept = text::copy_chars(lines[i].as_slice());
            out.push(kept);
            assert(text::views(out@) =~= text::views(out_before).push(lines@[i as int]@));
        }
        i = i + 1;
    }
    assert(all.take(i as int) =~= all);
    out
}

/// Reads the output of `wg show <device> dump`.
///
/// The first line is on the interface, the others are on the peers. A line
/// that does not fit is passed over: a `wg` that adds a field must not stop
/// everything.
pub fn parse(device: &str, raw: &str) -> (r: Result<DeviceStatus, WgError>)
    ensures
        describes(r, device@, raw@),
{
    let chars = text::chars_of(raw);
    let split = text::split_lines(chars.as_slice());
    let lines = keep_filled(&split);
    let ghost all = text::views(lines@);
    assert(all.len() == lines@.len());
    if lines.len() == 0 {
        return Err(unreadable(device, " dump: sortie vide"));
    }
    assert(all[0] == lines@[0]@);
    let header = text::split(lines[0].as_slice(), '\t');
    let ghost fields = text::views(header@);
    assert(fields.len() == header@.len());
    if header.len() < 3 {
        return Err(unreadable(device, " dump: en-tête illisible"));
    }
    assert(fields[1] == header@[1]@ && fields[2] == header@[2]@);
    let mut peers: Vec<PeerStatus> = Vec::new();
    let mut i: usize = 1;
    let ghost rest = all.skip(1);
    assert(peer_views(peers@) =~= lines_peers(rest.take(0)));
    while i < lines.len()
        invariant
            1 <= i <= lines@.len(),
            all == text::views(lines@),
            rest == all.skip(1),
            peer_views(peers@) == lines_peers(rest.take(i - 1)),
        decreases lines@.len() - i,
    {
        assert(rest.take(i as int).drop_last() =~= rest.take(i - 1));
        assert(rest.take(i as int).last() == lines@[i as int]@);
        if let Some(status) = peer(lines[i].as_slice()) {
            let ghost before = peers@;
            peers.push(status);
            assert(peer_views(peers@) =~= peer_views(before).push(status@));
        }
        i = i + 1;
    }
    assert(rest.take(i - 1) =~= rest);
    Ok(
        DeviceStatus {
            device: text::copy(device),
            // The first field is the private key of the server: it is not read.
            public_key: text::from_chars(header[1].as_slice()),
            listen_port: read_number(header[2].as_slice(), 65535) as u16,
            peers,
        },
    )
}

/// Reads a number, zero where there is none.
fn read_number(field: &[char], max: u64) -> (r: u64)
    ensures
        r == field_number(field@, max as nat),
        r <= max,
{
    match text::read_unsigned(field, max) {
        Some(n) => n,
        None => 0,
    }
}

/// Reads a list of addresses.
fn read_addresses(field: &[char]) -> (r: Vec<String>)
    ensures
        text::string_views(r@) == (match field_value(field@) {
            Some(ips) => each_trimmed(text::pieces(ips, ',')),
            None => Seq::empty(),
        }),
{
    let mut out: Vec<String> = Vec::new();
    match optional(field) {
        None => {
            assert(text::string_views(out@) =~= Seq::empty());
            out
        },
        Some(ips) => {
            let parts = text::split(ips, ',');
            let ghost all = text::views(parts@);
            let mut i: usize = 0;
            while i < parts.len()
                invariant
                    i <= parts@.len(),
                    all == text::views(parts@),
                    text::string_views(out@) == each_trimmed(all).take(i as int),
                decreases parts@.len() - i,
            {
                let ghost before = out@;
                out.push(text::from_chars(text::trim(parts[i].as_slice())));
                assert(all[i as int] == parts@[i as int]@);
                assert(text::string_views(out@) =~= text::string_views(before).push(
                    each_trimmed(all)[i as int],
                ));
                assert(each_trimmed(all).take(i + 1) =~= each_trimmed(all).take(i as int).push(
                    each_trimmed(all)[i as int],
                ));
                i = i + 1;
            }
            assert(each_trimmed(all).take(i as int) =~= each_trimmed(all));
            out
        },
    }
}

/// Reads the line of a peer.
pub fn peer(line: &[char]) -> (r: Option<PeerStatus>)
    ensures
        match r {
            Some(status) => line_peer(line@) == Some(status@),
            None => line_peer(line@) is None,
        },
{
    let fields = text::split(line, '\t');
    let ghost all = text::views(fields@);
    assert(all.len() == fields@.len());
    if fields.len() < 8 {
        return None;
    }
    assert(forall|i: int| 0 <= i < 8 ==> all[i] == (#[trigger] fields@[i])@);
    let endpoint = match optional(fields[2].as_slice()) {
        Some(address) => Some(text::from_chars(address)),
        None => None,
    };
    let handshake: u64 = read_number(fields[4].as_slice(), u64::MAX);
    let persistent_keepalive = match optional(fields[7].as_slice()) {
        Some(seconds) => match text::read_unsigned(seconds, 65535) {
            Some(n) => Some(n as u16),
            None => None,
        },
        None => None,
    };
    let status = PeerStatus {
        public_key: text::from_chars(fields[0].as_slice()),
        // The second field is the pre-shared key, a secret: it is not read.
        endpoint,
        allowed_ips: read_addresses(fields[3].as_slice()),
        latest_handshake: if handshake > 0 {
            Some(handshake)
        } else {
            None
        },
        transfer_rx: read_number(fields[5].as_slice(), u64::MAX),
        transfer_tx: read_number(fields[6].as_slice(), u64::MAX),
        persistent_keepalive,
    };
    assert(status@ =~= fields_peer(all));
    Some(status)
}

/// What a field says, without the marks by which `wg` says nothing.
fn optional(field: &[char]) -> (r: Option<&[char]>)
    ensures
        match r {
            Some(inside) => field_value(field@) == Some(inside@),
            None => field_value(field@) is None,
        },
{
    let inside = text::trim(field);
    let none = text::chars_of(NONE);
    let off = text::chars_of(OFF);
    if inside.len() == 0 || text::same(inside, none.as_slice()) || text::same(
        inside,
        off.as_slice(),
    ) {
        None
    } else {
        Some(inside)
    }
}

/// The arguments by which `wg` tells of a device and its peers.
pub fn dump_args(device: &str) -> (r: Vec<String>)
    ensures
        text::string_views(r@) == seq!["show"@, device@, "dump"@],
{
    let mut args = server::show_args(device);
    let ghost before = text::string_views(args@);
    args.push(text::copy("dump"));
    assert(text::string_views(args@) =~= before.push("dump"@));
    assert(text::string_views(args@) =~= seq!["show"@, device@, "dump"@]);
    args
}

/// A device and its peers, from what `wg show <device> dump` did.
pub fn dump(device: &str, output: Result<server::CommandOutput, IoFault>) -> (r: Result<
    DeviceStatus,
    WgError,
>)
    ensures
        match output {
            Ok(out) if out.success => describes(r, device@, out.stdout@),
            _ => r matches Err(e) && server::ran(Err(e), server::WG@, seq!["show"@, device@, "dump"@], output),
        },
{
    let args = dump_args(device);
    match server::run(server::WG, &args, output) {
        Ok(raw) => parse(device, raw.as_str()),
        Err(e) => Err(e),
    }
}

// ---------------------------------------------------------------------------
// Owners
// ---------------------------------------------------------------------------

/// The address and the length of a prefix. An address alone is a whole one.
pub open spec fn prefix_of(cidr: Seq<char>) -> Option<(IpAddr, nat)> {
    let at = text::position(cidr, '/');
    let base = ip::address_value(text::trimmed(cidr.take(at)));
    let len = if at < cidr.len() {
        text::unsigned_value(text::trimmed(cidr.skip(at + 1)), u32::MAX as nat)
    } else {
        Some(u32::MAX as nat)
    };
    match (base, len) {
        (Some(base), Some(len)) => Some((base, len)),
        _ => None,
    }
}

/// How many bits an address has.
pub open spec fn address_bits(ip: IpAddr) -> nat {
    match ip {
        IpAddr::V4(_) => 32,
        IpAddr::V6(_) => 128,
    }
}

/// The number of an address.
pub open spec fn address_number(ip: IpAddr) -> nat {
    match ip {
        IpAddr::V4(n) => n as nat,
        IpAddr::V6(n) => n as nat,
    }
}

/// Two addresses of one family agree on their first bits.
pub open spec fn agree(a: IpAddr, b: IpAddr, bits: nat) -> bool {
    &&& a is V4 == b is V4
    &&& address_number(a) / power2::pow2((address_bits(a) - bits) as nat) == address_number(b) / power2::pow2(
        (address_bits(a) - bits) as nat,
    )
}

/// How many bits of an address a prefix fixes, where it covers the address.
pub open spec fn covering(cidr: Seq<char>, seen: IpAddr) -> Option<nat> {
    match prefix_of(cidr) {
        None => None,
        Some((base, len)) => {
            let bits = if len < address_bits(base) {
                len
            } else {
                address_bits(base)
            };
            if agree(base, seen, bits) {
                Some(bits)
            } else {
                None
            }
        },
    }
}

/// The longest of the prefixes that cover an address.
pub open spec fn longest(cidrs: Seq<Seq<char>>, seen: IpAddr) -> Option<nat>
    decreases cidrs.len(),
{
    if cidrs.len() == 0 {
        None
    } else {
        match (longest(cidrs.drop_last(), seen), covering(cidrs.last(), seen)) {
            (Some(a), Some(b)) => if b > a {
                Some(b)
            } else {
                Some(a)
            },
            (Some(a), None) => Some(a),
            (None, b) => b,
        }
    }
}

/// How precisely a peer announces an address, if it does.
pub open spec fn precision(peer: PeerModel, seen: IpAddr) -> Option<nat> {
    longest(peer.allowed_ips, seen)
}

/// How precisely each peer announces an address.
pub open spec fn precisions(peers: Seq<PeerModel>, seen: IpAddr) -> Seq<Option<nat>> {
    Seq::new(peers.len(), |i: int| precision(peers[i], seen))
}

/// The last of the greatest numbers of a list.
pub open spec fn is_last_greatest(numbers: Seq<Option<nat>>, i: int) -> bool {
    &&& 0 <= i < numbers.len()
    &&& numbers[i] is Some
    &&& forall|j: int|
        0 <= j < numbers.len() ==> (#[trigger] numbers[j] matches Some(n) ==> (if j > i {
            n < numbers[i].unwrap()
        } else {
            n <= numbers[i].unwrap()
        }))
}

/// A peer owns an address: it announces it more precisely than any peer
/// behind it, and no less so than any peer before it.
pub open spec fn owns(peers: Seq<PeerModel>, i: int, seen: IpAddr) -> bool {
    is_last_greatest(precisions(peers, seen), i)
}

/// No peer announces an address.
pub open spec fn unowned(peers: Seq<PeerModel>, seen: IpAddr) -> bool {
    forall|i: int| 0 <= i < peers.len() ==> (#[trigger] precisions(peers, seen)[i]) is None
}

/// How many bits a prefix fixes, where it covers an address.
///
/// It is this that decides between two peers whose prefixes overlap.
pub fn match_len(cidr: &str, seen: IpAddr) -> (r: Option<u32>)
    ensures
        match r {
            Some(bits) => covering(cidr@, seen) == Some(bits as nat),
            None => covering(cidr@, seen) is None,
        },
{
    let chars = text::chars_of(cidr);
    let whole = chars.as_slice();
    let at = text::find(whole, '/');
    let head = slice_subrange(whole, 0, at);
    assert(head@ =~= cidr@.take(at as int));
    let base = match IpAddr::parse(text::trim(head)) {
        Some(base) => base,
        None => {
            return None;
        },
    };
    let len: u64 = if at < whole.len() {
        let tail = slice_subrange(whole, at + 1, whole.len());
        assert(tail@ =~= cidr@.skip(at + 1));
        match text::read_unsigned(text::trim(tail), u32::MAX as u64) {
            Some(len) => len,
            None => {
                return None;
            },
        }
    } else {
        u32::MAX as u64
    };
    let (a, b, size): (u128, u128, u32) = match (base, seen) {
        (IpAddr::V4(a), IpAddr::V4(b)) => (a as u128, b as u128, 32),
        (IpAddr::V6(a), IpAddr::V6(b)) => (a, b, 128),
        // Different families have nothing in common.
        _ => {
            return None;
        },
    };
    let bits: u32 = if len < size as u64 {
        len as u32
    } else {
        size
    };
    if shares_prefix(a, b, size - bits) {
        Some(bits)
    } else {
        None
    }
}

/// Tells whether two numbers agree when their last bits are left out.
fn shares_prefix(a: u128, b: u128, dropped: u32) -> (r: bool)
    requires
        dropped <= 128,
    ensures
        r == (a as nat / power2::pow2(dropped as nat) == b as nat / power2::pow2(dropped as nat)),
{
    if dropped == 128 {
        proof {
            lemma_nothing_left(a);
            lemma_nothing_left(b);
        }
        return true;
    }
    let shift: u128 = dropped as u128;
    proof {
        vstd::bits::lemma_u128_shr_is_div(a, shift);
        vstd::bits::lemma_u128_shr_is_div(b, shift);
    }
    (a >> shift) == (b >> shift)
}

/// Without its last 128 bits nothing is left of a number.
proof fn lemma_nothing_left(n: u128)
    ensures
        n as nat / power2::pow2(128) == 0,
{
    power2::lemma2_to64_rest();
    power2::lemma_pow2_adds(64, 64);
    assert(power2::pow2(128) == 0x1_0000_0000_0000_0000 * 0x1_0000_0000_0000_0000);
    vstd::arithmetic::div_mod::lemma_basic_div(n as int, power2::pow2(128) as int);
}

impl PeerStatus {
    /// How precisely the peer announces an address, if it does.
    fn announced(&self, seen: IpAddr) -> (r: Option<u32>)
        ensures
            match r {
                Some(bits) => precision(self@, seen) == Some(bits as nat),
                None => precision(self@, seen) is None,
            },
    {
        let ghost all = text::string_views(self.allowed_ips@);
        let mut best: Option<u32> = None;
        let mut i: usize = 0;
        assert(longest(all.take(0), seen) is None);
        while i < self.allowed_ips.len()
            invariant
                i <= self.allowed_ips@.len(),
                all == text::string_views(self.allowed_ips@),
                match best {
                    Some(bits) => longest(all.take(i as int), seen) == Some(bits as nat),
                    None => longest(all.take(i as int), seen) is None,
                },
            decreases self.allowed_ips@.len() - i,
        {
            assert(all.take(i + 1).drop_last() =~= all.take(i as int));
            assert(all.take(i + 1).last() == self.allowed_ips@[i as int]@);
            if let Some(bits) = match_len(self.allowed_ips[i].as_str(), seen) {
                best = match best {
                    Some(before) if bits <= before => Some(before),
                    _ => Some(bits),
                };
            }
            i = i + 1;
        }
        assert(all.take(i as int) =~= all);
        best
    }
}

/// The last greatest of some numbers, with one more.
proof fn lemma_greatest_so_far(numbers: Seq<Option<nat>>, i: int, at: int)
    requires
        0 <= i < numbers.len(),
        is_last_greatest(numbers.take(i), at),
    ensures
        numbers[at] == numbers.take(i)[at],
        match numbers[i] {
            Some(n) => if n < numbers[at].unwrap() {
                is_last_greatest(numbers.take(i + 1), at)
            } else {
                is_last_greatest(numbers.take(i + 1), i)
            },
            None => is_last_greatest(numbers.take(i + 1), at),
        },
{
    let before = numbers.take(i);
    let after = numbers.take(i + 1);
    assert forall|j: int| 0 <= j < i implies #[trigger] after[j] == before[j] by {}
    assert(after[i] == numbers[i]);
}

/// The first number among what is none.
proof fn lemma_first_number(numbers: Seq<Option<nat>>, i: int)
    requires
        0 <= i < numbers.len(),
        forall|j: int| 0 <= j < i ==> (#[trigger] numbers[j]) is None,
    ensures
        numbers[i] is Some ==> is_last_greatest(numbers.take(i + 1), i),
{
    let after = numbers.take(i + 1);
    assert forall|j: int| 0 <= j < i implies (#[trigger] after[j]) is None by {
        assert(after[j] == numbers[j]);
    }
    assert(after[i] == numbers[i]);
}

impl DeviceStatus {
    /// The place of the peer that an address of the tunnel belongs to.
    pub fn owner(&self, seen: IpAddr) -> (r: Option<usize>)
        ensures
            match r {
                Some(i) => owns(peer_views(self.peers@), i as int, seen),
                None => unowned(peer_views(self.peers@), seen),
            },
    {
        let ghost all = precisions(peer_views(self.peers@), seen);
        let mut best: Option<(usize, u32)> = None;
        let mut i: usize = 0;
        while i < self.peers.len()
            invariant
                i <= self.peers@.len(),
                all == precisions(peer_views(self.peers@), seen),
                match best {
                    Some((at, bits)) => {
                        &&& is_last_greatest(all.take(i as int), at as int)
                        &&& all[at as int] == Some(bits as nat)
                    },
                    None => forall|j: int| 0 <= j < i ==> (#[trigger] all[j]) is None,
                },
            decreases self.peers@.len() - i,
        {
            assert(all[i as int] == precision(self.peers@[i as int]@, seen));
            proof {
                match best {
                    Some((at, _)) => lemma_greatest_so_far(all, i as int, at as int),
                    None => lemma_first_number(all, i as int),
                }
            }
            if let Some(bits) = self.peers[i].announced(seen) {
                best = match best {
                    Some((at, before)) if bits < before => Some((at, before)),
                    _ => Some((i, bits)),
                };
            }
            i = i + 1;
        }
        assert(all.take(i as int) =~= all);
        match best {
            Some((at, _)) => Some(at),
            None => None,
        }
    }

    /// The peer that an address of the tunnel belongs to.
    ///
    /// A peer may announce several prefixes, and those of several peers may
    /// overlap: the most precise counts, as in a routing table. Otherwise a
    /// gateway peer with `0.0.0.0/0` would claim the traffic of all others.
    pub fn peer_for(&self, seen: IpAddr) -> (r: Option<&PeerStatus>)
        ensures
            match r {
                Some(peer) => exists|i: int| #[trigger]
                    owns(peer_views(self.peers@), i, seen) && *peer == self.peers@[i],
                None => unowned(peer_views(self.peers@), seen),
            },
    {
        match self.owner(seen) {
            Some(i) => Some(&self.peers[i]),
            None => None,
        }
    }
}

// ---------------------------------------------------------------------------
// Laws
// ---------------------------------------------------------------------------

/// A text that can stand in a field: it holds no tab and no end of a line.
pub open spec fn is_field(s: Seq<char>) -> bool {
    !s.contains('\t') && !s.contains('\n') && !s.contains('\r')
}

/// A text that says something in a field: white space neither starts nor ends
/// it, and it is none of the marks by which `wg` says nothing.
pub open spec fn is_said(s: Seq<char>) -> bool {
    is_field(s) && s.len() > 0 && text::is_tight(s) && s != "(none)"@ && s != "off"@
}

/// A peer that `wg` can write: a handshake at zero is none.
pub open spec fn is_written(peer: PeerModel) -> bool {
    &&& is_field(peer.public_key)
    &&& peer.endpoint matches Some(address) ==> is_said(address)
    &&& forall|i: int|
        0 <= i < peer.allowed_ips.len() ==> is_said(#[trigger] peer.allowed_ips[i])
            && !peer.allowed_ips[i].contains(',')
    &&& peer.latest_handshake != Some(0u64)
}

/// The fields that `wg` writes of a peer, each in its place, with those behind
/// them that a later `wg` may add.
pub open spec fn written_fields(
    peer: PeerModel,
    secret: Seq<char>,
    more: Seq<Seq<char>>,
) -> Seq<Seq<char>> {
    seq![
        peer.public_key,
        secret,
        match peer.endpoint {
            Some(address) => address,
            None => "(none)"@,
        },
        if peer.allowed_ips.len() > 0 {
            text::joined(peer.allowed_ips, ',')
        } else {
            "(none)"@
        },
        text::decimal(
            match peer.latest_handshake {
                Some(seconds) => seconds as nat,
                None => 0,
            },
        ),
        text::decimal(peer.transfer_rx as nat),
        text::decimal(peer.transfer_tx as nat),
        match peer.persistent_keepalive {
            Some(seconds) => text::decimal(seconds as nat),
            None => "off"@,
        },
    ] + more
}

/// The line that `wg` writes of a peer.
pub open spec fn written_line(
    peer: PeerModel,
    secret: Seq<char>,
    more: Seq<Seq<char>>,
) -> Seq<char> {
    text::joined(written_fields(peer, secret, more), '\t')
}

/// A list of addresses can stand in a field, and says something.
proof fn lemma_addresses_said(ips: Seq<Seq<char>>)
    requires
        ips.len() > 0,
        forall|i: int|
            0 <= i < ips.len() ==> is_said(#[trigger] ips[i]) && !ips[i].contains(','),
    ensures
        is_said(text::joined(ips, ',')),
    decreases ips.len(),
{
    reveal_strlit("(none)");
    reveal_strlit("off");
    let all = text::joined(ips, ',');
    assert(is_said(ips[ips.len() - 1]));
    if ips.len() > 1 {
        let before = ips.drop_last();
        assert forall|i: int| 0 <= i < before.len() implies is_said(#[trigger] before[i])
            && !before[i].contains(',') by {
            assert(before[i] == ips[i]);
        }
        lemma_addresses_said(before);
        let head = text::joined(before, ',');
        let last = ips.last();
        assert(all[0] == head[0]);
        assert(all.last() == last.last());
        assert(all[head.len() as int] == ',');
        assert(all != "(none)"@ && all != "off"@);
        assert forall|i: int| 0 <= i < all.len() implies all[i] != '\t' && all[i] != '\n' && all[i]
            != '\r' by {
            if i < head.len() {
                assert(head.contains(head[i]));
            } else if i > head.len() {
                assert(last.contains(last[i - head.len() - 1]));
            }
        }
    }
}

/// A number can stand in a field, and says something.
proof fn lemma_number_said(n: nat)
    ensures
        is_said(text::decimal(n)),
{
    reveal_strlit("(none)");
    reveal_strlit("off");
    let digits = text::decimal(n);
    text::lemma_decimal(n);
    assert(text::is_digit(digits[0]) && text::is_digit(digits[digits.len() - 1]));
    assert forall|i: int| 0 <= i < digits.len() implies digits[i] != '\t' && digits[i] != '\n'
        && digits[i] != '\r' by {
        assert(text::is_digit(digits[i]));
    }
}

/// What says something in a field is read as it is.
proof fn lemma_said(s: Seq<char>)
    requires
        is_said(s),
    ensures
        field_value(s) == Some(s),
{
    text::lemma_tight_stays(s);
}

/// The marks by which `wg` says nothing say nothing.
proof fn lemma_marks()
    ensures
        field_value("(none)"@) is None,
        field_value("off"@) is None,
        is_field("(none)"@),
        is_field("off"@),
{
    reveal_strlit("(none)");
    reveal_strlit("off");
    text::lemma_tight_stays("(none)"@);
    text::lemma_tight_stays("off"@);
}

/// The fields of a written line are read back.
proof fn lemma_fields_read_back(peer: PeerModel, secret: Seq<char>, more: Seq<Seq<char>>)
    requires
        is_written(peer),
        is_field(secret),
        forall|i: int| 0 <= i < more.len() ==> is_field(#[trigger] more[i]),
    ensures
        forall|i: int|
            0 <= i < written_fields(peer, secret, more).len() ==> is_field(
                #[trigger] written_fields(peer, secret, more)[i],
            ),
        text::pieces(written_line(peer, secret, more), '\t') == written_fields(
            peer,
            secret,
            more,
        ),
{
    let fields = written_fields(peer, secret, more);
    lemma_marks();
    if peer.allowed_ips.len() > 0 {
        lemma_addresses_said(peer.allowed_ips);
    }
    lemma_number_said(0);
    if let Some(seconds) = peer.latest_handshake {
        lemma_number_said(seconds as nat);
    }
    lemma_number_said(peer.transfer_rx as nat);
    lemma_number_said(peer.transfer_tx as nat);
    if let Some(seconds) = peer.persistent_keepalive {
        lemma_number_said(seconds as nat);
    }
    assert forall|i: int| 0 <= i < fields.len() implies is_field(#[trigger] fields[i]) by {
        if i >= 8 {
            assert(fields[i] == more[i - 8]);
        }
    }
    text::law_pieces_read_back(fields, '\t');
}

/// The line of a peer, each field in its place, is read back as that peer: for
/// all counters and handshakes of 64 bits, all keepalives of 16, and whatever
/// the pre-shared key and the fields behind are.
pub proof fn law_peer_reads_back(peer: PeerModel, secret: Seq<char>, more: Seq<Seq<char>>)
    requires
        is_written(peer),
        is_field(secret),
        forall|i: int| 0 <= i < more.len() ==> is_field(#[trigger] more[i]),
    ensures
        line_peer(written_line(peer, secret, more)) == Some(peer),
{
    let fields = written_fields(peer, secret, more);
    lemma_fields_read_back(peer, secret, more);
    lemma_marks();
    if let Some(address) = peer.endpoint {
        lemma_said(address);
    }
    if peer.allowed_ips.len() > 0 {
        lemma_addresses_said(peer.allowed_ips);
        lemma_said(fields[3]);
        text::law_pieces_read_back(peer.allowed_ips, ',');
        assert forall|i: int| 0 <= i < peer.allowed_ips.len() implies text::trimmed(
            #[trigger] peer.allowed_ips[i],
        ) == peer.allowed_ips[i] by {
            assert(is_said(peer.allowed_ips[i]));
            text::lemma_tight_stays(peer.allowed_ips[i]);
        }
    }
    let max = u64::MAX as nat;
    text::lemma_decimal_reads_back(0, max);
    if let Some(seconds) = peer.latest_handshake {
        text::lemma_decimal_reads_back(seconds as nat, max);
    }
    text::lemma_decimal_reads_back(peer.transfer_rx as nat, max);
    text::lemma_decimal_reads_back(peer.transfer_tx as nat, max);
    if let Some(seconds) = peer.persistent_keepalive {
        lemma_number_said(seconds as nat);
        lemma_said(fields[7]);
        text::lemma_decimal_reads_back(seconds as nat, u16::MAX as nat);
    }
    assert(fields_peer(fields) =~= peer);
}

/// A line with fewer fields than a peer has is passed over.
pub proof fn law_short_line_is_no_peer(fields: Seq<Seq<char>>)
    requires
        0 < fields.len() < 8,
        forall|i: int| 0 <= i < fields.len() ==> is_field(#[trigger] fields[i]),
    ensures
        line_peer(text::joined(fields, '\t')) is None,
{
    text::law_pieces_read_back(fields, '\t');
}

/// A counter that is no number is zero, a handshake and a keepalive none; the
/// rest of the peer is read all the same.
pub proof fn law_unreadable_numbers_are_nothing(fields: Seq<Seq<char>>)
    requires
        fields.len() >= 8,
        forall|i: int| 0 <= i < fields.len() ==> is_field(#[trigger] fields[i]),
        forall|i: int|
            4 <= i < 8 ==> (#[trigger] fields[i]).len() > 0 && text::is_tight(fields[i])
                && !text::is_digit(fields[i].last()),
    ensures
        line_peer(text::joined(fields, '\t')) matches Some(peer) && {
            &&& peer.public_key == fields[0]
            &&& peer.latest_handshake is None
            &&& peer.transfer_rx == 0
            &&& peer.transfer_tx == 0
            &&& peer.persistent_keepalive is None
        },
{
    text::law_pieces_read_back(fields, '\t');
    assert forall|i: int, max: nat| 4 <= i < 8 implies (#[trigger] text::unsigned_value(
        fields[i],
        max,
    )) is None by {
        let field = fields[i];
        text::law_other_texts_are_no_numbers(field, field.len() - 1, max);
    }
    assert(fields[7].len() > 0);
    text::lemma_tight_stays(fields[7]);
}

/// The lines that `wg` writes of peers, each with its pre-shared key.
pub open spec fn written_lines(peers: Seq<PeerModel>, secrets: Seq<Seq<char>>) -> Seq<
    (Seq<char>, bool),
> {
    Seq::new(peers.len(), |i: int| (written_line(peers[i], secrets[i], Seq::empty()), false))
}

/// What `wg show <device> dump` writes: the fields of the interface, then a
/// line for each peer.
pub open spec fn written_dump(
    header: Seq<Seq<char>>,
    peers: Seq<PeerModel>,
    secrets: Seq<Seq<char>>,
) -> Seq<char> {
    text::ended(seq![(text::joined(header, '\t'), false)] + written_lines(peers, secrets))
}

/// Fields on one line make one line.
proof fn lemma_joined_line(fields: Seq<Seq<char>>)
    requires
        forall|i: int| 0 <= i < fields.len() ==> is_field(#[trigger] fields[i]),
    ensures
        !text::joined(fields, '\t').contains('\n'),
        !text::joined(fields, '\t').contains('\r'),
    decreases fields.len(),
{
    let all = text::joined(fields, '\t');
    if fields.len() > 0 {
        assert(is_field(fields[fields.len() - 1]));
    }
    if fields.len() > 1 {
        let before = fields.drop_last();
        assert forall|i: int| 0 <= i < before.len() implies is_field(#[trigger] before[i]) by {
            assert(before[i] == fields[i]);
        }
        lemma_joined_line(before);
        let head = text::joined(before, '\t');
        let last = fields.last();
        assert forall|i: int| 0 <= i < all.len() implies all[i] != '\n' && all[i] != '\r' by {
            if i < head.len() {
                assert(head.contains(head[i]));
            } else if i > head.len() {
                assert(last.contains(last[i - head.len() - 1]));
            }
        }
    }
}

/// Fields that hold more than white space make a line that does.
proof fn lemma_joined_filled(fields: Seq<Seq<char>>, at: int, inside: int) -> (place: int)
    requires
        0 <= at < fields.len(),
        0 <= inside < fields[at].len(),
    ensures
        0 <= place < text::joined(fields, '\t').len(),
        text::joined(fields, '\t')[place] == fields[at][inside],
    decreases fields.len(),
{
    if fields.len() == 1 {
        inside
    } else {
        let head = text::joined(fields.drop_last(), '\t');
        if at == fields.len() - 1 {
            head.len() + 1 + inside
        } else {
            lemma_joined_filled(fields.drop_last(), at, inside)
        }
    }
}

/// Lines of which each holds more than white space are all kept.
proof fn lemma_all_filled(lines: Seq<Seq<char>>)
    requires
        forall|i: int| 0 <= i < lines.len() ==> text::trimmed(#[trigger] lines[i]).len() > 0,
    ensures
        filled(lines) == lines,
    decreases lines.len(),
{
    if lines.len() == 0 {
        assert(filled(lines) =~= lines);
    } else {
        let before = lines.drop_last();
        assert forall|i: int| 0 <= i < before.len() implies text::trimmed(
            #[trigger] before[i],
        ).len() > 0 by {
            assert(before[i] == lines[i]);
        }
        lemma_all_filled(before);
        assert(text::trimmed(lines[lines.len() - 1]).len() > 0);
        assert(filled(lines) =~= lines);
    }
}

/// Written lines are read back, one peer for each.
proof fn lemma_lines_read_back(peers: Seq<PeerModel>, lines: Seq<Seq<char>>)
    requires
        lines.len() == peers.len(),
        forall|i: int| 0 <= i < peers.len() ==> line_peer(#[trigger] lines[i]) == Some(peers[i]),
    ensures
        lines_peers(lines) == peers,
    decreases peers.len(),
{
    if peers.len() == 0 {
        assert(lines_peers(lines) =~= peers);
    } else {
        let fewer = lines.drop_last();
        assert forall|i: int| 0 <= i < fewer.len() implies line_peer(#[trigger] fewer[i]) == Some(
            peers.drop_last()[i],
        ) by {
            assert(fewer[i] == lines[i]);
        }
        lemma_lines_read_back(peers.drop_last(), fewer);
        assert(line_peer(lines[lines.len() - 1]) == Some(peers.last()));
        assert(lines_peers(lines) =~= peers);
    }
}

/// The line of a peer is one line, holds more than white space, and is read
/// back.
proof fn lemma_written_line(peer: PeerModel, secret: Seq<char>)
    requires
        is_written(peer),
        is_field(secret),
    ensures
        !written_line(peer, secret, Seq::empty()).contains('\n'),
        !written_line(peer, secret, Seq::empty()).contains('\r'),
        text::trimmed(written_line(peer, secret, Seq::empty())).len() > 0,
        line_peer(written_line(peer, secret, Seq::empty())) == Some(peer),
{
    let more = Seq::<Seq<char>>::empty();
    let fields = written_fields(peer, secret, more);
    law_peer_reads_back(peer, secret, more);
    lemma_fields_read_back(peer, secret, more);
    lemma_joined_line(fields);
    text::lemma_decimal(peer.transfer_rx as nat);
    assert(text::is_digit(fields[5][0]));
    let place = lemma_joined_filled(fields, 5, 0);
    text::lemma_filled_stays(written_line(peer, secret, more), place);
}

/// What `wg show <device> dump` wrote is read back whole: the public key and
/// the port of the interface, and every peer, in order.
pub proof fn law_dump_reads_back(
    r: Result<DeviceStatus, WgError>,
    device: Seq<char>,
    secret: Seq<char>,
    public_key: Seq<char>,
    port: u16,
    more: Seq<Seq<char>>,
    peers: Seq<PeerModel>,
    secrets: Seq<Seq<char>>,
)
    requires
        is_field(secret),
        is_field(public_key),
        forall|i: int| 0 <= i < more.len() ==> is_field(#[trigger] more[i]),
        secrets.len() == peers.len(),
        forall|i: int| 0 <= i < peers.len() ==> is_written(#[trigger] peers[i]),
        forall|i: int| 0 <= i < secrets.len() ==> is_field(#[trigger] secrets[i]),
        describes(
            r,
            device,
            written_dump(
                seq![secret, public_key, text::decimal(port as nat)] + more,
                peers,
                secrets,
            ),
        ),
    ensures
        r matches Ok(status) && {
            &&& status.device@ == device
            &&& status.public_key@ == public_key
            &&& status.listen_port == port
            &&& peer_views(status.peers@) == peers
            &&& status.peers@.len() == peers.len()
            &&& forall|i: int|
                0 <= i < peers.len() ==> {
                    let read = #[trigger] status.peers@[i];
                    &&& read.public_key@ == peers[i].public_key
                    &&& text::option_view(read.endpoint) == peers[i].endpoint
                    &&& text::string_views(read.allowed_ips@) == peers[i].allowed_ips
                    &&& read.latest_handshake == peers[i].latest_handshake
                    &&& read.transfer_rx == peers[i].transfer_rx
                    &&& read.transfer_tx == peers[i].transfer_tx
                    &&& read.persistent_keepalive == peers[i].persistent_keepalive
                }
        },
{
    let header = seq![secret, public_key, text::decimal(port as nat)] + more;
    let first = text::joined(header, '\t');
    let all = seq![(first, false)] + written_lines(peers, secrets);
    let raw = written_dump(header, peers, secrets);
    lemma_number_said(port as nat);
    assert forall|i: int| 0 <= i < header.len() implies is_field(#[trigger] header[i]) by {
        if i >= 3 {
            assert(header[i] == more[i - 3]);
        }
    }
    lemma_joined_line(header);
    text::lemma_decimal(port as nat);
    assert(text::is_digit(header[2][0]));
    let place = lemma_joined_filled(header, 2, 0);
    text::lemma_filled_stays(first, place);
    assert forall|i: int| 0 <= i < all.len() implies !(#[trigger] all[i]).0.contains('\n') && (
    all[i].0.len() == 0 || all[i].0.last() != '\r') && text::trimmed(all[i].0).len() > 0 by {
        if i > 0 {
            assert(is_written(peers[i - 1]) && is_field(secrets[i - 1]));
            lemma_written_line(peers[i - 1], secrets[i - 1]);
        }
        if all[i].0.len() > 0 {
            assert(all[i].0.contains(all[i].0.last()));
        }
    }
    let none = Seq::<char>::empty();
    text::law_lines_read_back(all, none);
    assert(text::ended(all) + none =~= raw);
    let lines = text::line_texts(all);
    assert(text::lines(raw) =~= lines);
    assert forall|i: int| 0 <= i < lines.len() implies text::trimmed(#[trigger] lines[i]).len()
        > 0 by {
        assert(lines[i] == all[i].0);
    }
    lemma_all_filled(lines);
    assert(lines[0] == first);
    text::law_pieces_read_back(header, '\t');
    text::lemma_decimal_reads_back(port as nat, u16::MAX as nat);
    let rest = lines.skip(1);
    assert forall|i: int| 0 <= i < peers.len() implies line_peer(#[trigger] rest[i]) == Some(
        peers[i],
    ) by {
        assert(rest[i] == all[i + 1].0);
        assert(is_written(peers[i]) && is_field(secrets[i]));
        lemma_written_line(peers[i], secrets[i]);
    }
    lemma_lines_read_back(peers, rest);
    if let Ok(status) = r {
        let views = peer_views(status.peers@);
        assert(views.len() == status.peers@.len());
        assert forall|i: int| 0 <= i < peers.len() implies (#[trigger] status.peers@[i])@
            == peers[i] by {
            assert(views[i] == status.peers@[i]@);
        }
    }
}

/// An address has one owner at most.
pub proof fn law_owner_is_unique(peers: Seq<PeerModel>, i: int, j: int, seen: IpAddr)
    requires
        owns(peers, i, seen),
        owns(peers, j, seen),
    ensures
        i == j,
{
}

/// The most specific peer wins: one that announces an address more precisely
/// than all others owns it, wherever it stands.
pub proof fn law_most_specific_peer_wins(peers: Seq<PeerModel>, i: int, seen: IpAddr)
    requires
        0 <= i < peers.len(),
        precision(peers[i], seen) is Some,
        forall|j: int|
            0 <= j < peers.len() && j != i ==> (precision(#[trigger] peers[j], seen) matches Some(n)
                ==> n < precision(peers[i], seen).unwrap()),
    ensures
        owns(peers, i, seen),
{
    let all = precisions(peers, seen);
    assert forall|j: int| 0 <= j < all.len() implies (#[trigger] all[j] matches Some(n) ==> (if j
        > i {
        n < all[i].unwrap()
    } else {
        n <= all[i].unwrap()
    })) by {
        assert(all[j] == precision(peers[j], seen));
    }
}

/// An address has an owner if and only if some peer announces it.
pub proof fn law_announced_address_has_an_owner(peers: Seq<PeerModel>, seen: IpAddr)
    ensures
        unowned(peers, seen) <==> !exists|i: int| owns(peers, i, seen),
{
    let all = precisions(peers, seen);
    if exists|k: int| 0 <= k < all.len() && (#[trigger] all[k]) is Some {
        let k = choose|k: int| 0 <= k < all.len() && (#[trigger] all[k]) is Some;
        lemma_greatest_exists(all, k);
        let i = choose|i: int| is_last_greatest(all, i);
        assert(owns(peers, i, seen));
    }
}

/// Among some numbers there is a last greatest.
proof fn lemma_greatest_exists(numbers: Seq<Option<nat>>, k: int)
    requires
        0 <= k < numbers.len(),
        numbers[k] is Some,
    ensures
        exists|i: int| is_last_greatest(numbers, i),
    decreases numbers.len(),
{
    let rest = numbers.drop_last();
    let last = numbers.len() - 1;
    assert forall|j: int| 0 <= j < last implies #[trigger] rest[j] == numbers[j] by {}
    if exists|j: int| 0 <= j < last && (#[trigger] rest[j]) is Some {
        let j = choose|j: int| 0 <= j < last && (#[trigger] rest[j]) is Some;
        lemma_greatest_exists(rest, j);
        let i = choose|i: int| is_last_greatest(rest, i);
        if numbers[last] is Some && numbers[last].unwrap() >= numbers[i].unwrap() {
            assert(is_last_greatest(numbers, last)) by {
                assert forall|m: int| 0 <= m < numbers.len() implies (#[trigger] numbers[
                    m
                ] matches Some(n) ==> n <= numbers[last].unwrap()) by {
                    if m < last {
                        assert(rest[m] == numbers[m]);
                    }
                }
            }
        } else {
            assert(is_last_greatest(numbers, i)) by {
                assert forall|m: int| 0 <= m < numbers.len() implies (#[trigger] numbers[
                    m
                ] matches Some(n) ==> (if m > i {
                    n < numbers[i].unwrap()
                } else {
                    n <= numbers[i].unwrap()
                })) by {
                    if m < last {
                        assert(rest[m] == numbers[m]);
                    }
                }
            }
        }
    } else {
        assert(is_last_greatest(numbers, last)) by {
            assert forall|m: int| 0 <= m < last implies (#[trigger] numbers[m]) is None by {
                assert(rest[m] == numbers[m]);
            }
        }
    }
}

/// A whole prefix covers its own address and no other of its family.
pub proof fn law_whole_prefix_covers_one_address(base: IpAddr, seen: IpAddr)
    requires
        base is V4 == seen is V4,
    ensures
        agree(base, seen, address_bits(base)) <==> base == seen,
{
    power2::lemma2_to64();
    assert(power2::pow2((address_bits(base) - address_bits(base)) as nat) == 1);
    assert(address_number(base) / 1 == address_number(base));
    assert(address_number(seen) / 1 == address_number(seen));
}

/// An empty prefix covers every address of its family.
pub proof fn law_empty_prefix_covers_all(base: IpAddr, seen: IpAddr)
    requires
        base is V4 == seen is V4,
    ensures
        agree(base, seen, 0),
{
    match (base, seen) {
        (IpAddr::V4(a), IpAddr::V4(b)) => {
            power2::lemma2_to64();
            assert(power2::pow2(32) == 0x1_0000_0000);
            vstd::arithmetic::div_mod::lemma_basic_div(a as int, 0x1_0000_0000);
            vstd::arithmetic::div_mod::lemma_basic_div(b as int, 0x1_0000_0000);
        },
        (IpAddr::V6(a), IpAddr::V6(b)) => {
            lemma_nothing_left(a);
            lemma_nothing_left(b);
        },
        _ => {},
    }
}

/// How precisely a peer announces an address is the longest of its prefixes
/// that cover it: one of them, and none is longer. It announces none exactly
/// where no prefix covers the address.
pub proof fn law_precision_is_the_longest_prefix(peer: PeerModel, seen: IpAddr)
    ensures
        precision(peer, seen) matches Some(n) ==> exists|i: int|
            0 <= i < peer.allowed_ips.len() && covering(#[trigger] peer.allowed_ips[i], seen)
                == Some(n),
        forall|i: int|
            0 <= i < peer.allowed_ips.len() ==> (covering(
                #[trigger] peer.allowed_ips[i],
                seen,
            ) matches Some(m) ==> precision(peer, seen) is Some && m <= precision(
                peer,
                seen,
            ).unwrap()),
{
    let ips = peer.allowed_ips;
    if longest(ips, seen) is Some {
        let i = lemma_longest_is_there(ips, seen);
        assert(covering(ips[i], seen) == longest(ips, seen));
    }
    assert forall|i: int| 0 <= i < ips.len() implies (covering(
        #[trigger] ips[i],
        seen,
    ) matches Some(m) ==> precision(peer, seen) is Some && m <= precision(
        peer,
        seen,
    ).unwrap()) by {
        lemma_none_is_longer(ips, seen, i);
    }
}

/// The longest prefix is one of a list.
proof fn lemma_longest_is_there(cidrs: Seq<Seq<char>>, seen: IpAddr) -> (i: int)
    requires
        longest(cidrs, seen) is Some,
    ensures
        0 <= i < cidrs.len(),
        covering(cidrs[i], seen) == longest(cidrs, seen),
    decreases cidrs.len(),
{
    let last = covering(cidrs.last(), seen);
    if last == longest(cidrs, seen) {
        cidrs.len() - 1
    } else {
        lemma_longest_is_there(cidrs.drop_last(), seen)
    }
}

/// None of a list is longer than the longest.
proof fn lemma_none_is_longer(cidrs: Seq<Seq<char>>, seen: IpAddr, i: int)
    requires
        0 <= i < cidrs.len(),
    ensures
        covering(cidrs[i], seen) matches Some(m) ==> longest(cidrs, seen) is Some && m <= longest(
            cidrs,
            seen,
        ).unwrap(),
    decreases cidrs.len(),
{
    if i < cidrs.len() - 1 {
        lemma_none_is_longer(cidrs.drop_last(), seen, i);
        assert(cidrs.drop_last()[i] == cidrs[i]);
    }
}

/// Among peers that announce an address equally, the last owns it: those behind
/// the owner announce it less precisely, and those before it no more so.
pub proof fn law_tie_goes_to_the_last(peers: Seq<PeerModel>, i: int, j: int, seen: IpAddr)
    requires
        owns(peers, i, seen),
        0 <= j < peers.len(),
    ensures
        0 <= i < peers.len(),
        precision(peers[i], seen) is Some,
        precision(peers[j], seen) matches Some(n) ==> n <= precision(peers[i], seen).unwrap(),
        j > i ==> precision(peers[j], seen) != precision(peers[i], seen),
{
    let all = precisions(peers, seen);
    assert(all[i] == precision(peers[i], seen));
    assert(all[j] == precision(peers[j], seen));
}

/// A bit of an address, counted from its first.
pub open spec fn address_bit(ip: IpAddr, k: int) -> nat {
    address_number(ip) / power2::pow2((address_bits(ip) - 1 - k) as nat) % 2
}

/// Numbers that agree without their last bits agree on each of the others.
proof fn lemma_bits_agree(a: nat, b: nat, size: nat, count: nat)
    requires
        count <= size,
        a < power2::pow2(size),
        b < power2::pow2(size),
    ensures
        a / power2::pow2((size - count) as nat) == b / power2::pow2((size - count) as nat)
            <==> forall|k: int|
            0 <= k < count ==> #[trigger] bit_of(a, size, k) == bit_of(b, size, k),
    decreases count,
{
    if count == 0 {
        vstd::arithmetic::div_mod::lemma_basic_div(a as int, power2::pow2(size) as int);
        vstd::arithmetic::div_mod::lemma_basic_div(b as int, power2::pow2(size) as int);
    } else {
        let low = (size - count) as nat;
        let high = (size - count + 1) as nat;
        lemma_bits_agree(a, b, size, (count - 1) as nat);
        lemma_one_bit(a, low);
        lemma_one_bit(b, low);
        assert(size - (count - 1) == high && high == low + 1);
        assert(bit_of(a, size, count - 1) == a / power2::pow2(low) % 2);
        assert(bit_of(b, size, count - 1) == b / power2::pow2(low) % 2);
        let (qa, qb) = (a / power2::pow2(low), b / power2::pow2(low));
        let (ha, hb) = (a / power2::pow2(high), b / power2::pow2(high));
        assert(qa == 2 * ha + qa % 2 && qb == 2 * hb + qb % 2);
        if qa == qb {
            lemma_halves(qa, ha, hb);
        }
    }
}

/// A number has one half.
proof fn lemma_halves(whole: nat, a: nat, b: nat)
    requires
        whole == 2 * a + whole % 2,
        whole == 2 * b + whole % 2,
    ensures
        a == b,
{
}

/// A bit of a number, counted from its first.
spec fn bit_of(n: nat, size: nat, k: int) -> nat {
    n / power2::pow2((size - 1 - k) as nat) % 2
}

/// One bit more of a number.
proof fn lemma_one_bit(n: nat, low: nat)
    ensures
        n / power2::pow2(low) == 2 * (n / power2::pow2(low + 1)) + n / power2::pow2(low) % 2,
{
    power2::lemma_pow2_pos(low);
    power2::lemma_pow2_unfold(low + 1);
    vstd::arithmetic::div_mod::lemma_div_denominator(
        n as int,
        power2::pow2(low) as int,
        2,
    );
    assert(power2::pow2(low) * 2 == power2::pow2(low + 1));
    let q = n / power2::pow2(low);
    assert(n / power2::pow2(low + 1) == q / 2);
}

/// The numbers of addresses have the bits of addresses, and no more.
proof fn lemma_address_bounded(ip: IpAddr)
    ensures
        address_number(ip) < power2::pow2(address_bits(ip)),
{
    power2::lemma2_to64();
    power2::lemma2_to64_rest();
    power2::lemma_pow2_adds(64, 64);
    assert(power2::pow2(128) == 0x1_0000_0000_0000_0000 * 0x1_0000_0000_0000_0000);
}

/// Two addresses agree on their first bits: each is the same.
pub open spec fn same_bits(a: IpAddr, b: IpAddr, count: nat) -> bool {
    &&& a is V4 == b is V4
    &&& forall|k: int| 0 <= k < count ==> #[trigger] address_bit(a, k) == address_bit(b, k)
}

/// A prefix written in CIDR notation covers exactly the addresses of its family
/// that agree with it on its first bits, each of them; and it tells how many
/// those are, no more than an address has. An address alone covers itself only.
pub proof fn law_prefix_covers_what_agrees(base: IpAddr, len: u32, seen: IpAddr)
    ensures
        ({
            let bits = if len < address_bits(base) {
                len as nat
            } else {
                address_bits(base)
            };
            covering(ip::address_text(base).push('/') + text::decimal(len as nat), seen) == (
            if same_bits(base, seen, bits) {
                Some(bits)
            } else {
                None
            })
        }),
        covering(ip::address_text(base), seen) == (if base == seen {
            Some(address_bits(base))
        } else {
            None
        }),
{
    let host = ip::address_text(base);
    let digits = text::decimal(len as nat);
    let cidr = host.push('/') + digits;
    let bits = if len < address_bits(base) {
        len as nat
    } else {
        address_bits(base)
    };
    ip::law_address_reads_back(base);
    ip::law_address_text_is_plain(base);
    assert(!host.contains('/')) by {
        if host.contains('/') {
            let i = choose|i: int| 0 <= i < host.len() && host[i] == '/';
            assert(ip::is_address_char(host[i]));
        }
    }
    assert(ip::is_address_char(host[0]) && ip::is_address_char(host[host.len() - 1]));
    text::lemma_tight_stays(host);
    text::lemma_decimal(len as nat);
    assert(text::is_digit(digits[0]) && text::is_digit(digits[digits.len() - 1]));
    text::lemma_tight_stays(digits);
    text::lemma_decimal_reads_back(len as nat, u32::MAX as nat);
    text::lemma_position_behind(host, '/', digits);
    assert(cidr.take(host.len() as int) =~= host);
    assert(cidr.skip(host.len() as int + 1) =~= digits);
    text::lemma_position(host, '/');
    assert(host.take(host.len() as int) =~= host);
    if base is V4 == seen is V4 {
        let size = address_bits(base);
        lemma_address_bounded(base);
        lemma_address_bounded(seen);
        lemma_bits_agree(address_number(base), address_number(seen), size, bits);
        assert forall|k: int| 0 <= k < bits implies #[trigger] address_bit(base, k) == bit_of(
            address_number(base),
            size,
            k,
        ) && address_bit(seen, k) == bit_of(address_number(seen), size, k) by {}
        if agree(base, seen, bits) {
            assert forall|k: int| 0 <= k < bits implies #[trigger] address_bit(base, k)
                == address_bit(seen, k) by {
                assert(bit_of(address_number(base), size, k) == bit_of(
                    address_number(seen),
                    size,
                    k,
                ));
            }
        }
        if same_bits(base, seen, bits) {
            assert forall|k: int| 0 <= k < bits implies #[trigger] bit_of(
                address_number(base),
                size,
                k,
            ) == bit_of(address_number(seen), size, k) by {
                assert(address_bit(base, k) == address_bit(seen, k));
            }
        }
        law_whole_prefix_covers_one_address(base, seen);
    }
}

/// White space around what a field says does not count, nor does it around the
/// marks by which it says nothing; a blank field says nothing.
pub proof fn law_space_around_a_field_does_not_count(
    before: Seq<char>,
    said: Seq<char>,
    after: Seq<char>,
)
    requires
        text::all_spaces(before),
        text::all_spaces(after),
        text::is_tight(said),
    ensures
        field_value(before + said + after) == (if said.len() > 0 && said != "(none)"@ && said
            != "off"@ {
            Some(said)
        } else {
            None
        }),
{
    text::law_only_space_is_trimmed(before, said, after);
}

/// The addresses of a peer are read without the white space around each.
pub proof fn law_space_around_addresses_does_not_count(
    fields: Seq<Seq<char>>,
    before: Seq<Seq<char>>,
    ips: Seq<Seq<char>>,
    after: Seq<Seq<char>>,
    padded: Seq<Seq<char>>,
)
    requires
        fields.len() >= 8,
        forall|i: int| 0 <= i < fields.len() ==> is_field(#[trigger] fields[i]),
        fields[3] == text::joined(padded, ','),
        is_said(fields[3]),
        padded.len() > 0,
        before.len() == padded.len(),
        ips.len() == padded.len(),
        after.len() == padded.len(),
        forall|i: int|
            0 <= i < padded.len() ==> !(#[trigger] padded[i]).contains(',') && padded[i]
                == before[i] + ips[i] + after[i],
        forall|i: int| 0 <= i < before.len() ==> text::all_spaces(#[trigger] before[i]),
        forall|i: int| 0 <= i < ips.len() ==> text::is_tight(#[trigger] ips[i]),
        forall|i: int| 0 <= i < after.len() ==> text::all_spaces(#[trigger] after[i]),
    ensures
        line_peer(text::joined(fields, '\t')) matches Some(peer) && peer.allowed_ips == ips,
{
    text::law_pieces_read_back(fields, '\t');
    lemma_said(fields[3]);
    text::law_pieces_read_back(padded, ',');
    let read = each_trimmed(padded);
    assert forall|i: int| 0 <= i < padded.len() implies read[i] == ips[i] by {
        assert(padded[i] == before[i] + ips[i] + after[i]);
        assert(text::all_spaces(before[i]) && text::is_tight(ips[i]) && text::all_spaces(after[i]));
        text::law_only_space_is_trimmed(before[i], ips[i], after[i]);
    }
    assert(read =~= ips);
}

/// The lines that are filled, of two lists put together.
proof fn lemma_filled_adds(a: Seq<Seq<char>>, b: Seq<Seq<char>>)
    ensures
        filled(a + b) == filled(a) + filled(b),
    decreases b.len(),
{
    if b.len() == 0 {
        assert(a + b =~= a);
        assert(filled(a) + filled(b) =~= filled(a));
    } else {
        lemma_filled_adds(a, b.drop_last());
        assert((a + b).drop_last() =~= a + b.drop_last());
        assert((a + b).last() == b.last());
        assert(filled(a + b) =~= filled(a) + filled(b));
    }
}

/// The peers of two lists of lines put together.
proof fn lemma_peers_add(a: Seq<Seq<char>>, b: Seq<Seq<char>>)
    ensures
        lines_peers(a + b) == lines_peers(a) + lines_peers(b),
    decreases b.len(),
{
    if b.len() == 0 {
        assert(a + b =~= a);
        assert(lines_peers(a) + lines_peers(b) =~= lines_peers(a));
    } else {
        lemma_peers_add(a, b.drop_last());
        assert((a + b).drop_last() =~= a + b.drop_last());
        assert((a + b).last() == b.last());
        assert(lines_peers(a + b) =~= lines_peers(a) + lines_peers(b));
    }
}

/// A blank line does not count, wherever it stands, and a line that describes
/// no peer is passed over without touching the others.
pub proof fn law_other_lines_are_passed_over(
    above: Seq<Seq<char>>,
    line: Seq<char>,
    below: Seq<Seq<char>>,
)
    ensures
        text::all_spaces(line) ==> filled(above + seq![line] + below) == filled(above + below),
        line_peer(line) is None ==> lines_peers(above + seq![line] + below) == lines_peers(
            above + below,
        ),
{
    lemma_filled_adds(above, below);
    lemma_filled_adds(above + seq![line], below);
    lemma_filled_adds(above, seq![line]);
    lemma_peers_add(above, below);
    lemma_peers_add(above + seq![line], below);
    lemma_peers_add(above, seq![line]);
    let one = seq![line];
    assert(one.drop_last() =~= Seq::empty());
    if text::all_spaces(line) {
        let none = Seq::<char>::empty();
        text::law_only_space_is_trimmed(line, none, none);
        assert(line + none + none =~= line);
        assert(filled(one) == filled(one.drop_last()));
        assert(filled(above) + filled(one) =~= filled(above));
    }
    if line_peer(line) is None {
        assert(lines_peers(one) == lines_peers(one.drop_last()));
        assert(lines_peers(above) + lines_peers(one) =~= lines_peers(above));
    }
}

/// An output without a filled line is refused, and so is one whose first has
/// too few fields: nothing is made up for it.
pub proof fn law_unreadable_dump_is_refused(
    r: Result<DeviceStatus, WgError>,
    device: Seq<char>,
    raw: Seq<char>,
    fields: Seq<Seq<char>>,
)
    requires
        describes(r, device, raw),
        0 < fields.len() < 3,
        forall|i: int| 0 <= i < fields.len() ==> is_field(#[trigger] fields[i]),
    ensures
        filled(text::lines(raw)).len() == 0 ==> r is Err,
        filled(text::lines(raw)).len() > 0 && filled(text::lines(raw))[0] == text::joined(
            fields,
            '\t',
        ) ==> r is Err,
{
    text::law_pieces_read_back(fields, '\t');
}

/// White space around the two parts of a prefix does not count; a length that
/// is no number makes none.
pub proof fn law_space_in_a_prefix_does_not_count(
    a: Seq<char>,
    host: Seq<char>,
    b: Seq<char>,
    c: Seq<char>,
    size: Seq<char>,
    d: Seq<char>,
    seen: IpAddr,
    at: int,
)
    requires
        text::all_spaces(a),
        text::is_tight(host),
        !host.contains('/'),
        text::all_spaces(b),
        text::all_spaces(c),
        text::is_tight(size),
        text::all_spaces(d),
    ensures
        covering((a + host + b).push('/') + (c + size + d), seen) == covering(
            host.push('/') + size,
            seen,
        ),
        0 <= at < size.len() && !text::is_digit(size[at]) && (at > 0 || size[0] != '+' || size.len()
            == 1) ==> covering(host.push('/') + size, seen) is None,
        size.len() == 0 ==> covering(host.push('/') + size, seen) is None,
{
    let head = a + host + b;
    let tail = c + size + d;
    assert(!head.contains('/')) by {
        if head.contains('/') {
            let i = choose|i: int| 0 <= i < head.len() && head[i] == '/';
            if i < a.len() {
                assert(text::is_space(a[i]));
            } else if i < a.len() + host.len() {
                assert(host[i - a.len()] == '/');
            } else {
                assert(text::is_space(b[i - a.len() - host.len()]));
            }
        }
    }
    text::lemma_position_behind(head, '/', tail);
    text::lemma_position_behind(host, '/', size);
    let wide = head.push('/') + tail;
    let tight = host.push('/') + size;
    assert(wide.take(head.len() as int) =~= head);
    assert(wide.skip(head.len() as int + 1) =~= tail);
    assert(tight.take(host.len() as int) =~= host);
    assert(tight.skip(host.len() as int + 1) =~= size);
    text::law_only_space_is_trimmed(a, host, b);
    text::law_only_space_is_trimmed(c, size, d);
    text::lemma_tight_stays(host);
    text::lemma_tight_stays(size);
    if 0 <= at < size.len() && !text::is_digit(size[at]) && (at > 0 || size[0] != '+' || size.len()
        == 1) {
        text::law_other_texts_are_no_numbers(size, at, u32::MAX as nat);
    }
}

/// What is said of an output that cannot be read names the device.
pub proof fn law_message_names_the_device(device: Seq<char>, reason: Seq<char>)
    ensures
        text::occurs(device, dump_fault(device, reason)),
        text::occurs(reason, dump_fault(device, reason)),
{
    let none = Seq::<char>::empty();
    text::lemma_occurs("wg show "@, device, reason);
    text::lemma_occurs("wg show "@ + device, reason, none);
    assert("wg show "@ + device + reason + none =~= "wg show "@ + device + reason);
}

} // verus!
