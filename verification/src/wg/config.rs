//! The configuration of a WireGuard server, and the file that says it.

use vstd::prelude::*;
use vstd::slice::slice_subrange;

use crate::text;

use super::error;
use super::error::{Fault, WgError};
use super::keys;

verus! {

/// The directory that `wg-quick` reads.
pub const DEFAULT_CONFIG_DIR: &'static str = "/etc/wireguard";

/// The usual name of the interface.
pub const DEFAULT_INTERFACE: &'static str = "wg0";

/// The usual UDP port.
pub const DEFAULT_LISTEN_PORT: u16 = 51820;

/// The usual network of the server.
pub const DEFAULT_ADDRESS: &'static str = "10.8.0.1/24";

/// A peer that may connect to the server.
#[derive(Debug, Clone)]
pub struct Peer {
    /// The public key of the client, in base64.
    pub public_key: String,
    /// The addresses routed to this peer, such as `["10.8.0.2/32"]`.
    pub allowed_ips: Vec<String>,
    /// A pre-shared key, for more defence.
    pub preshared_key: Option<String>,
    /// A keepalive in seconds, useful behind a NAT.
    pub persistent_keepalive: Option<u16>,
    /// A comment that is written above the section.
    pub name: Option<String>,
}

/// The settings of the server, its keys aside.
#[derive(Debug, Clone)]
pub struct ServerConfig {
    /// The name of the interface (`wg0`), which is also that of the file.
    pub interface: String,
    /// The directory of the files.
    pub config_dir: String,
    /// The address of the server in the tunnel, in CIDR notation.
    pub address: String,
    /// The UDP port listened on.
    pub listen_port: u16,
    /// The interface to the outside; where it is given, NAT rules are added.
    pub wan_interface: Option<String>,
    /// The DNS servers handed to the clients.
    pub dns: Vec<String>,
    /// A fixed MTU.
    pub mtu: Option<u32>,
    /// The peers.
    pub peers: Vec<Peer>,
}

// ---------------------------------------------------------------------------
// Paths
// ---------------------------------------------------------------------------

/// A path within a directory. An absolute path is taken as it is.
pub open spec fn joined_path(dir: Seq<char>, file: Seq<char>) -> Seq<char> {
    if file.len() > 0 && file[0] == '/' {
        file
    } else if dir.len() == 0 || dir.last() == '/' {
        dir + file
    } else {
        dir.push('/') + file
    }
}

/// A path within a directory.
pub fn join_path(dir: &str, file: &str) -> (r: String)
    ensures
        r@ == joined_path(dir@, file@),
{
    let inside = text::chars_of(dir);
    let name = text::chars_of(file);
    if name.len() > 0 && name[0] == '/' {
        return text::copy(file);
    }
    let mut out = text::copy(dir);
    if inside.len() > 0 && inside[inside.len() - 1] != '/' {
        out.push('/');
    }
    out.append(file);
    assert(out@ =~= joined_path(dir@, file@));
    out
}

/// The segments of a path up to its last one that names something: those
/// behind it are empty or a dot.
pub open spec fn named_segments(segments: Seq<Seq<char>>) -> Seq<Seq<char>>
    decreases segments.len(),
{
    if segments.len() > 0 && (segments.last().len() == 0 || segments.last() == seq!['.']) {
        named_segments(segments.drop_last())
    } else {
        segments
    }
}

/// Where the last dot of a text stands, -1 where there is none.
pub open spec fn last_dot(s: Seq<char>) -> int
    decreases s.len(),
{
    if s.len() == 0 {
        -1
    } else if s.last() == '.' {
        s.len() - 1
    } else {
        last_dot(s.drop_last())
    }
}

/// A file name without its extension. A dot at the start begins no extension.
pub open spec fn stem(name: Seq<char>) -> Seq<char> {
    if last_dot(name) > 0 {
        name.take(last_dot(name))
    } else {
        name
    }
}

/// The interface that a path is named after: the name of its file, without
/// the extension.
pub open spec fn path_interface(path: Seq<char>) -> Option<Seq<char>> {
    let segments = named_segments(text::pieces(path, '/'));
    if segments.len() == 0 || segments.last() == seq!['.', '.'] {
        None
    } else {
        Some(stem(segments.last()))
    }
}

/// The interface that the path of a configuration is named after.
pub fn interface_from_path(path: &str) -> (r: Option<String>)
    ensures
        text::option_view(r) == path_interface(path@),
{
    let chars = text::chars_of(path);
    let segments = text::split(chars.as_slice(), '/');
    let ghost all = text::views(segments@);
    assert(all.len() == segments@.len());
    let mut count: usize = segments.len();
    let dot = ['.'];
    assert(dot@ =~= seq!['.']);
    assert(all.take(count as int) =~= all);
    while count > 0 && (segments[count - 1].len() == 0 || text::same(
        segments[count - 1].as_slice(),
        dot.as_slice(),
    ))
        invariant
            count <= segments@.len(),
            all == text::views(segments@),
            dot@ == seq!['.'],
            named_segments(all) == named_segments(all.take(count as int)),
        decreases count,
    {
        assert(all.take(count as int).drop_last() =~= all.take(count - 1));
        count = count - 1;
    }
    assert(named_segments(all) == all.take(count as int)) by {
        if count > 0 {
            assert(all[count - 1] == segments@[count - 1]@);
            assert(all.take(count as int).last() == all[count - 1]);
        }
    }
    if count == 0 {
        return None;
    }
    let name = segments[count - 1].as_slice();
    assert(all.take(count as int).last() == name@);
    let up = ['.', '.'];
    assert(up@ =~= seq!['.', '.']);
    if text::same(name, up.as_slice()) {
        return None;
    }
    let mut at: usize = name.len();
    assert(name@.take(at as int) =~= name@);
    while at > 0 && name[at - 1] != '.'
        invariant
            at <= name@.len(),
            last_dot(name@) == last_dot(name@.take(at as int)),
        decreases at,
    {
        assert(name@.take(at as int).drop_last() =~= name@.take(at - 1));
        at = at - 1;
    }
    if at > 1 {
        let kept = slice_subrange(name, 0, at - 1);
        assert(kept@ =~= name@.take(at - 1));
        Some(text::from_chars(kept))
    } else {
        Some(text::from_chars(name))
    }
}

// ---------------------------------------------------------------------------
// Faults
// ---------------------------------------------------------------------------

/// What `{:?}` writes of a text: the text in quotes, with what cannot be shown
/// escaped.
pub uninterp spec fn debug_text(s: Seq<char>) -> Seq<char>;

/// The `Debug` of `str`, whose result is given a name.
#[verifier::external_body]
fn debug(s: &str) -> (r: String)
    ensures
        r@ == debug_text(s@),
{
    format!("{:?}", s)
}

/// A character that the name of an interface may hold.
pub open spec fn is_interface_char(c: char) -> bool {
    ||| 'a' <= c <= 'z'
    ||| 'A' <= c <= 'Z'
    ||| '0' <= c <= '9'
    ||| c == '-'
    ||| c == '_'
    ||| c == '.'
}

/// A name that an interface may have.
pub open spec fn is_interface(s: Seq<char>) -> bool {
    s.len() > 0 && forall|i: int| 0 <= i < s.len() ==> is_interface_char(#[trigger] s[i])
}

/// What is wrong with a key, if anything is.
pub open spec fn key_fault(encoded: Seq<char>) -> Option<Fault> {
    match keys::key_of(encoded) {
        Ok(_) => None,
        Err(fault) => Some(fault),
    }
}

/// What is first found wrong with a peer, if anything is.
pub open spec fn peer_fault(peer: Peer) -> Option<Fault> {
    if key_fault(peer.public_key@) is Some {
        key_fault(peer.public_key@)
    } else if peer.preshared_key is Some && key_fault(peer.preshared_key.unwrap()@) is Some {
        key_fault(peer.preshared_key.unwrap()@)
    } else if peer.allowed_ips@.len() == 0 {
        Some(Fault::Config("le pair "@ + peer.public_key@ + " n'a aucun AllowedIPs"@))
    } else {
        None
    }
}

/// What is first found wrong with a list of peers, if anything is.
pub open spec fn peers_fault(peers: Seq<Peer>) -> Option<Fault>
    decreases peers.len(),
{
    if peers.len() == 0 {
        None
    } else if peers_fault(peers.drop_last()) is Some {
        peers_fault(peers.drop_last())
    } else {
        peer_fault(peers.last())
    }
}

/// The name of the interface is wrong: it is shown so.
pub open spec fn interface_fault(shown: Seq<char>) -> Fault {
    Fault::Config("nom d'interface invalide: "@ + shown)
}

/// The address is wrong: it is shown so.
pub open spec fn address_fault(shown: Seq<char>) -> Fault {
    Fault::Config("l'adresse "@ + shown + " doit être en notation CIDR (ex. 10.8.0.1/24)"@)
}

/// What is first found wrong with a configuration, if anything is.
pub open spec fn config_fault(cfg: ServerConfig) -> Option<Fault> {
    if !is_interface(cfg.interface@) {
        Some(interface_fault(debug_text(cfg.interface@)))
    } else if !cfg.address@.contains('/') {
        Some(address_fault(debug_text(cfg.address@)))
    } else if cfg.listen_port == 0 {
        Some(Fault::Config("le port d'écoute ne peut pas être 0"@))
    } else {
        peers_fault(cfg.peers@)
    }
}

/// A result reports a fault, or there is none.
pub open spec fn checked(r: Result<(), WgError>, fault: Option<Fault>) -> bool {
    match fault {
        None => r is Ok,
        Some(f) => r matches Err(e) && error::reports(e, f),
    }
}

impl Peer {
    /// The least a peer needs: a public key and an address in the tunnel.
    pub fn new(public_key: String, allowed_ips: String) -> (r: Self)
        ensures
            r.public_key == public_key,
            r.allowed_ips@ == seq![allowed_ips],
            r.preshared_key is None,
            r.persistent_keepalive is None,
            r.name is None,
    {
        let mut ips: Vec<String> = Vec::new();
        ips.push(allowed_ips);
        assert(ips@ =~= seq![allowed_ips]);
        Peer {
            public_key,
            allowed_ips: ips,
            preshared_key: None,
            persistent_keepalive: None,
            name: None,
        }
    }

    /// Checks that a peer makes sense.
    pub fn validate(&self) -> (r: Result<(), WgError>)
        ensures
            checked(r, peer_fault(*self)),
    {
        if let Err(e) = keys::validate_key_b64(self.public_key.as_str()) {
            return Err(e);
        }
        if let Some(psk) = &self.preshared_key {
            if let Err(e) = keys::validate_key_b64(psk.as_str()) {
                return Err(e);
            }
        }
        if self.allowed_ips.len() == 0 {
            let mut reason = text::copy("le pair ");
            reason.append(self.public_key.as_str());
            reason.append(" n'a aucun AllowedIPs");
            return Err(WgError::InvalidConfig(reason));
        }
        Ok(())
    }
}

/// The error for a name that no interface may have, shown so.
pub fn bad_interface(shown: &str) -> (r: WgError)
    ensures
        error::reports(r, interface_fault(shown@)),
{
    let mut reason = text::copy("nom d'interface invalide: ");
    reason.append(shown);
    WgError::InvalidConfig(reason)
}

/// The error for an address without a prefix, shown so.
pub fn bad_address(shown: &str) -> (r: WgError)
    ensures
        error::reports(r, address_fault(shown@)),
{
    let mut reason = text::copy("l'adresse ");
    reason.append(shown);
    reason.append(" doit être en notation CIDR (ex. 10.8.0.1/24)");
    WgError::InvalidConfig(reason)
}

/// Tells whether an interface may have this name.
fn valid_interface(name: &str) -> (r: bool)
    ensures
        r == is_interface(name@),
{
    let chars = text::chars_of(name);
    if chars.len() == 0 {
        return false;
    }
    let mut i: usize = 0;
    while i < chars.len()
        invariant
            i <= chars@.len(),
            chars@ == name@,
            forall|j: int| 0 <= j < i ==> is_interface_char(#[trigger] chars@[j]),
        decreases chars@.len() - i,
    {
        let c = chars[i];
        if !(('a' <= c && c <= 'z') || ('A' <= c && c <= 'Z') || ('0' <= c && c <= '9') || c == '-'
            || c == '_' || c == '.') {
            assert(!is_interface_char(chars@[i as int]));
            return false;
        }
        i = i + 1;
    }
    true
}

impl Default for ServerConfig {
    /// The usual settings: no NAT, no DNS, no peer.
    fn default() -> (r: Self)
        ensures
            r.interface@ == DEFAULT_INTERFACE@,
            r.config_dir@ == DEFAULT_CONFIG_DIR@,
            r.address@ == DEFAULT_ADDRESS@,
            r.listen_port == DEFAULT_LISTEN_PORT,
            r.wan_interface is None,
            r.dns@.len() == 0,
            r.mtu is None,
            r.peers@.len() == 0,
    {
        ServerConfig {
            interface: text::copy(DEFAULT_INTERFACE),
            config_dir: text::copy(DEFAULT_CONFIG_DIR),
            address: text::copy(DEFAULT_ADDRESS),
            listen_port: DEFAULT_LISTEN_PORT,
            wan_interface: None,
            dns: Vec::new(),
            mtu: None,
            peers: Vec::new(),
        }
    }
}

impl ServerConfig {
    /// The path of a file named after the interface.
    fn path(&self, extension: &str) -> (r: String)
        ensures
            r@ == joined_path(self.config_dir@, self.interface@ + extension@),
    {
        let mut file = text::copy(self.interface.as_str());
        file.append(extension);
        join_path(self.config_dir.as_str(), file.as_str())
    }

    /// The path of the `wg-quick` file, such as `/etc/wireguard/wg0.conf`.
    pub fn config_path(&self) -> (r: String)
        ensures
            r@ == joined_path(self.config_dir@, self.interface@ + ".conf"@),
    {
        self.path(".conf")
    }

    /// The path of the private key, such as `/etc/wireguard/wg0.key`.
    pub fn private_key_path(&self) -> (r: String)
        ensures
            r@ == joined_path(self.config_dir@, self.interface@ + ".key"@),
    {
        self.path(".key")
    }

    /// The path of the public key, such as `/etc/wireguard/wg0.pub`.
    pub fn public_key_path(&self) -> (r: String)
        ensures
            r@ == joined_path(self.config_dir@, self.interface@ + ".pub"@),
    {
        self.path(".pub")
    }

    /// Checks that a configuration makes sense, before anything is written.
    pub fn validate(&self) -> (r: Result<(), WgError>)
        ensures
            checked(r, config_fault(*self)),
    {
        if !valid_interface(self.interface.as_str()) {
            return Err(bad_interface(debug(self.interface.as_str()).as_str()));
        }
        let address = text::chars_of(self.address.as_str());
        if text::find(address.as_slice(), '/') == address.len() {
            return Err(bad_address(debug(self.address.as_str()).as_str()));
        }
        if self.listen_port == 0 {
            return Err(
                WgError::InvalidConfig(text::copy("le port d'écoute ne peut pas être 0")),
            );
        }
        self.validate_peers()
    }

    /// Checks the peers, one after the other.
    fn validate_peers(&self) -> (r: Result<(), WgError>)
        ensures
            checked(r, peers_fault(self.peers@)),
    {
        let mut i: usize = 0;
        while i < self.peers.len()
            invariant
                i <= self.peers@.len(),
                peers_fault(self.peers@.take(i as int)) is None,
            decreases self.peers@.len() - i,
        {
            assert(self.peers@.take(i + 1).drop_last() =~= self.peers@.take(i as int));
            if let Err(e) = self.peers[i].validate() {
                proof {
                    lemma_peers_fault(self.peers@, i + 1);
                }
                return Err(e);
            }
            i = i + 1;
        }
        assert(self.peers@.take(i as int) =~= self.peers@);
        Ok(())
    }
}

/// What is wrong with the first peers is what is wrong with all.
proof fn lemma_peers_fault(peers: Seq<Peer>, upto: int)
    requires
        0 <= upto <= peers.len(),
        peers_fault(peers.take(upto)) is Some,
    ensures
        peers_fault(peers) == peers_fault(peers.take(upto)),
    decreases peers.len(),
{
    if upto < peers.len() {
        assert(peers.drop_last().take(upto) =~= peers.take(upto));
        lemma_peers_fault(peers.drop_last(), upto);
    } else {
        assert(peers.take(upto) =~= peers);
    }
}

// ---------------------------------------------------------------------------
// The file
// ---------------------------------------------------------------------------

/// One line of the file.
pub open spec fn line(label: Seq<char>, value: Seq<char>) -> Seq<char> {
    (label + value).push('\n')
}

/// Texts with a comma and a space between each two.
pub open spec fn listed(texts: Seq<Seq<char>>) -> Seq<char>
    decreases texts.len(),
{
    if texts.len() == 0 {
        Seq::empty()
    } else if texts.len() == 1 {
        texts[0]
    } else {
        listed(texts.drop_last()) + ", "@ + texts.last()
    }
}

/// The commands that start the NAT.
pub open spec fn nat_up_text(interface: Seq<char>, wan: Seq<char>) -> Seq<char> {
    "iptables -A FORWARD -i "@ + interface + " -j ACCEPT; iptables -A FORWARD -o "@ + interface
        + " -j ACCEPT; iptables -t nat -A POSTROUTING -o "@ + wan + " -j MASQUERADE"@
}

/// The commands that end the NAT.
pub open spec fn nat_down_text(interface: Seq<char>, wan: Seq<char>) -> Seq<char> {
    "iptables -D FORWARD -i "@ + interface + " -j ACCEPT; iptables -D FORWARD -o "@ + interface
        + " -j ACCEPT; iptables -t nat -D POSTROUTING -o "@ + wan + " -j MASQUERADE"@
}

/// What stands above the private key.
pub open spec fn head_text(cfg: ServerConfig) -> Seq<char> {
    line("# Généré par perses-mother — ne pas éditer à la main."@, Seq::empty()) + line(
        "[Interface]"@,
        Seq::empty(),
    ) + line("Address = "@, cfg.address@) + line(
        "ListenPort = "@,
        text::decimal(cfg.listen_port as nat),
    )
}

/// What stands below the private key, in the section of the interface.
pub open spec fn tail_text(cfg: ServerConfig) -> Seq<char> {
    let dns = if cfg.dns@.len() > 0 {
        line("DNS = "@, listed(text::string_views(cfg.dns@)))
    } else {
        Seq::empty()
    };
    let mtu = match cfg.mtu {
        Some(mtu) => line("MTU = "@, text::decimal(mtu as nat)),
        None => Seq::empty(),
    };
    let rules = match cfg.wan_interface {
        Some(wan) => line("PostUp = "@, nat_up_text(cfg.interface@, wan@)) + line(
            "PostDown = "@,
            nat_down_text(cfg.interface@, wan@),
        ),
        None => Seq::empty(),
    };
    dns + mtu + rules
}

/// The section of a peer.
pub open spec fn peer_text(peer: Peer) -> Seq<char> {
    let name = match peer.name {
        Some(name) => line("# "@, name@),
        None => Seq::empty(),
    };
    let psk = match peer.preshared_key {
        Some(psk) => line("PresharedKey = "@, psk@),
        None => Seq::empty(),
    };
    let keepalive = match peer.persistent_keepalive {
        Some(seconds) => line("PersistentKeepalive = "@, text::decimal(seconds as nat)),
        None => Seq::empty(),
    };
    seq!['\n'] + name + line("[Peer]"@, Seq::empty()) + line("PublicKey = "@, peer.public_key@)
        + psk + line("AllowedIPs = "@, listed(text::string_views(peer.allowed_ips@))) + keepalive
}

/// The sections of the peers.
pub open spec fn peers_text(peers: Seq<Peer>) -> Seq<char>
    decreases peers.len(),
{
    if peers.len() == 0 {
        Seq::empty()
    } else {
        peers_text(peers.drop_last()) + peer_text(peers.last())
    }
}

/// The whole file.
pub open spec fn config_text(cfg: ServerConfig, private_key: Seq<char>) -> Seq<char> {
    head_text(cfg) + line("PrivateKey = "@, private_key) + tail_text(cfg) + peers_text(cfg.peers@)
}

/// Writes a line.
fn push_line(label: &str, value: &str, out: &mut String)
    ensures
        final(out)@ == old(out)@ + line(label@, value@),
{
    out.append(label);
    out.append(value);
    out.push('\n');
    assert(out@ =~= old(out)@ + line(label@, value@));
}

/// Writes a line without a value.
fn push_title(label: &str, out: &mut String)
    ensures
        final(out)@ == old(out)@ + line(label@, Seq::empty()),
{
    out.append(label);
    out.push('\n');
    assert(out@ =~= old(out)@ + line(label@, Seq::empty()));
}

/// Writes a line with a number.
fn push_number(label: &str, value: u64, out: &mut String)
    ensures
        final(out)@ == old(out)@ + line(label@, text::decimal(value as nat)),
{
    push_line(label, text::decimal_text(value).as_str(), out);
}

/// Joins texts with a comma and a space between each two.
fn join_list(texts: &Vec<String>) -> (r: String)
    ensures
        r@ == listed(text::string_views(texts@)),
{
    let ghost all = text::string_views(texts@);
    let mut out = String::new();
    let mut i: usize = 0;
    assert(out@ =~= listed(all.take(0)));
    while i < texts.len()
        invariant
            i <= texts@.len(),
            all == text::string_views(texts@),
            out@ == listed(all.take(i as int)),
        decreases texts@.len() - i,
    {
        if i > 0 {
            out.append(", ");
        }
        out.append(texts[i].as_str());
        assert(all.take(i + 1).drop_last() =~= all.take(i as int));
        assert(all.take(i + 1).last() == texts@[i as int]@);
        assert(out@ =~= listed(all.take(i + 1)));
        i = i + 1;
    }
    assert(all.take(i as int) =~= all);
    out
}

/// The commands that start the NAT.
pub fn nat_up(interface: &str, wan: &str) -> (r: String)
    ensures
        r@ == nat_up_text(interface@, wan@),
{
    let mut out = text::copy("iptables -A FORWARD -i ");
    out.append(interface);
    out.append(" -j ACCEPT; iptables -A FORWARD -o ");
    out.append(interface);
    out.append(" -j ACCEPT; iptables -t nat -A POSTROUTING -o ");
    out.append(wan);
    out.append(" -j MASQUERADE");
    out
}

/// The commands that end the NAT.
pub fn nat_down(interface: &str, wan: &str) -> (r: String)
    ensures
        r@ == nat_down_text(interface@, wan@),
{
    let mut out = text::copy("iptables -D FORWARD -i ");
    out.append(interface);
    out.append(" -j ACCEPT; iptables -D FORWARD -o ");
    out.append(interface);
    out.append(" -j ACCEPT; iptables -t nat -D POSTROUTING -o ");
    out.append(wan);
    out.append(" -j MASQUERADE");
    out
}

impl Peer {
    /// Writes the section of the peer.
    fn push_to(&self, out: &mut String)
        ensures
            final(out)@ == old(out)@ + peer_text(*self),
    {
        out.push('\n');
        if let Some(name) = &self.name {
            push_line("# ", name.as_str(), out);
        }
        push_title("[Peer]", out);
        push_line("PublicKey = ", self.public_key.as_str(), out);
        if let Some(psk) = &self.preshared_key {
            push_line("PresharedKey = ", psk.as_str(), out);
        }
        push_line("AllowedIPs = ", join_list(&self.allowed_ips).as_str(), out);
        if let Some(keepalive) = self.persistent_keepalive {
            push_number("PersistentKeepalive = ", keepalive as u64, out);
        }
        assert(out@ =~= old(out)@ + peer_text(*self));
    }
}

/// What rendering a configuration with a private key comes to: the file, or
/// what is first found wrong. A key that is accepted is written in base64,
/// white space around it aside.
pub open spec fn renders(
    r: Result<String, WgError>,
    cfg: ServerConfig,
    private_key: Seq<char>,
) -> bool {
    match config_fault(cfg) {
        Some(fault) => r matches Err(e) && error::reports(e, fault),
        None => match key_fault(private_key) {
            Some(fault) => r matches Err(e) && error::reports(e, fault),
            None => {
                &&& r matches Ok(file)
                &&& file@ == config_text(cfg, private_key)
                &&& keys::base64_only(text::trimmed(private_key))
            },
        },
    }
}

impl ServerConfig {
    /// The `wg-quick` file, with the private key of the server.
    pub fn render(&self, private_key_b64: &str) -> (r: Result<String, WgError>)
        ensures
            renders(r, *self, private_key_b64@),
    {
        if let Err(e) = self.validate() {
            return Err(e);
        }
        if let Err(e) = keys::validate_key_b64(private_key_b64) {
            return Err(e);
        }
        let mut out = String::new();
        self.push_head(&mut out);
        push_line("PrivateKey = ", private_key_b64, &mut out);
        self.push_tail(&mut out);
        let ghost before = out@;
        let mut i: usize = 0;
        assert(out@ =~= before + peers_text(self.peers@.take(0)));
        while i < self.peers.len()
            invariant
                i <= self.peers@.len(),
                out@ == before + peers_text(self.peers@.take(i as int)),
            decreases self.peers@.len() - i,
        {
            self.peers[i].push_to(&mut out);
            assert(self.peers@.take(i + 1).drop_last() =~= self.peers@.take(i as int));
            assert(out@ =~= before + peers_text(self.peers@.take(i + 1)));
            i = i + 1;
        }
        assert(self.peers@.take(i as int) =~= self.peers@);
        assert(out@ =~= config_text(*self, private_key_b64@));
        Ok(out)
    }

    /// Writes what stands above the private key.
    fn push_head(&self, out: &mut String)
        ensures
            final(out)@ == old(out)@ + head_text(*self),
    {
        push_title("# Généré par perses-mother — ne pas éditer à la main.", out);
        push_title("[Interface]", out);
        push_line("Address = ", self.address.as_str(), out);
        push_number("ListenPort = ", self.listen_port as u64, out);
        assert(out@ =~= old(out)@ + head_text(*self));
    }

    /// Writes what stands below the private key.
    fn push_tail(&self, out: &mut String)
        ensures
            final(out)@ == old(out)@ + tail_text(*self),
    {
        if self.dns.len() > 0 {
            push_line("DNS = ", join_list(&self.dns).as_str(), out);
        }
        if let Some(mtu) = self.mtu {
            push_number("MTU = ", mtu as u64, out);
        }
        if let Some(wan) = &self.wan_interface {
            push_line("PostUp = ", nat_up(self.interface.as_str(), wan.as_str()).as_str(), out);
            push_line(
                "PostDown = ",
                nat_down(self.interface.as_str(), wan.as_str()).as_str(),
                out,
            );
        }
        assert(out@ =~= old(out)@ + tail_text(*self));
    }
}

/// The private key that a line sets, if it sets one.
pub open spec fn line_key(s: Seq<char>) -> Option<Seq<char>> {
    let at = text::position(s, '=');
    if at < s.len() && text::lowered(text::trimmed(s.take(at))) == text::lowered("PrivateKey"@) {
        Some(text::trimmed(s.skip(at + 1)))
    } else {
        None
    }
}

/// The private key that the first of some lines sets.
pub open spec fn lines_key(lines: Seq<Seq<char>>) -> Option<Seq<char>>
    decreases lines.len(),
{
    if lines.len() == 0 {
        None
    } else if line_key(lines[0]) is Some {
        line_key(lines[0])
    } else {
        lines_key(lines.skip(1))
    }
}

/// The private key that a configuration file sets.
pub open spec fn file_key(file: Seq<char>) -> Option<Seq<char>> {
    lines_key(text::lines(file))
}

/// Reads the private key that a line sets.
fn read_line_key(s: &[char]) -> (r: Option<String>)
    ensures
        text::option_view(r) == line_key(s@),
{
    let at = text::find(s, '=');
    if at == s.len() {
        return None;
    }
    let label = slice_subrange(s, 0, at);
    let value = slice_subrange(s, at + 1, s.len());
    assert(label@ =~= s@.take(at as int));
    assert(value@ =~= s@.skip(at + 1));
    let wanted = text::to_lower(text::chars_of("PrivateKey").as_slice());
    if text::same(text::to_lower(text::trim(label)).as_slice(), wanted.as_slice()) {
        Some(text::from_chars(text::trim(value)))
    } else {
        None
    }
}

/// Reads the private key of a configuration file.
pub fn extract_private_key(config: &str) -> (r: Option<String>)
    ensures
        text::option_view(r) == file_key(config@),
{
    let chars = text::chars_of(config);
    let lines = text::split_lines(chars.as_slice());
    let ghost all = text::views(lines@);
    let mut i: usize = 0;
    assert(all.skip(0) =~= all);
    while i < lines.len()
        invariant
            i <= lines@.len(),
            all == text::views(lines@),
            all == text::lines(config@),
            lines_key(all) == lines_key(all.skip(i as int)),
        decreases lines@.len() - i,
    {
        assert(all.skip(i as int)[0] == lines@[i as int]@);
        if let Some(key) = read_line_key(lines[i].as_slice()) {
            return Some(key);
        }
        assert(all.skip(i as int).skip(1) =~= all.skip(i + 1));
        i = i + 1;
    }
    None
}

// ---------------------------------------------------------------------------
// Laws
// ---------------------------------------------------------------------------

/// The first line that sets the key counts, wherever the lines are cut.
proof fn lemma_lines_key_add(a: Seq<Seq<char>>, b: Seq<Seq<char>>)
    ensures
        lines_key(a + b) == (if lines_key(a) is Some {
            lines_key(a)
        } else {
            lines_key(b)
        }),
    decreases a.len(),
{
    if a.len() == 0 {
        assert(a + b =~= b);
    } else {
        lemma_lines_key_add(a.skip(1), b);
        assert((a + b).skip(1) =~= a.skip(1) + b);
    }
}

/// The same of a text and a line before it.
proof fn lemma_file_key_join(a: Seq<char>, b: Seq<char>)
    ensures
        file_key(a.push('\n') + b) == (if file_key(a.push('\n')) is Some {
            file_key(a.push('\n'))
        } else {
            file_key(b)
        }),
{
    text::lemma_lines_join(a, b);
    lemma_lines_key_add(text::lines(a.push('\n')), text::lines(b));
}

/// What one line sets.
proof fn lemma_file_key_line(s: Seq<char>)
    requires
        !s.contains('\n'),
    ensures
        file_key(s.push('\n')) == line_key(text::without_return(s)),
{
    text::lemma_one_line(s);
    let one = seq![text::without_return(s)];
    assert(one.skip(1) =~= Seq::empty());
    assert(lines_key(one.skip(1)) is None);
}

/// Trimming makes nothing longer.
proof fn lemma_trimmed_length(s: Seq<char>)
    ensures
        text::trimmed_start(s).len() <= s.len(),
        text::trimmed_end(s).len() <= s.len(),
    decreases s.len(),
{
    if s.len() > 0 {
        lemma_trimmed_length(s.skip(1));
        lemma_trimmed_length(s.drop_last());
    }
}

/// Without an equals sign no key is set.
proof fn lemma_no_equals(s: Seq<char>)
    requires
        forall|i: int| 0 <= i < s.len() ==> s[i] != '=',
    ensures
        line_key(s) is None,
{
    text::lemma_position(s, '=');
}

/// An address on one line sets no private key, so that the key of such a
/// configuration is always read back.
pub proof fn law_one_line_address_sets_no_key(address: Seq<char>)
    requires
        !address.contains('\n'),
    ensures
        file_key(line("Address = "@, address)) is None,
{
    reveal_strlit("Address = ");
    reveal_strlit("PrivateKey");
    let label = "Address = "@;
    let s = label + address;
    assert(!s.contains('\n')) by {
        if s.contains('\n') {
            let i = choose|i: int| 0 <= i < s.len() && s[i] == '\n';
            if i >= label.len() {
                assert(address[i - label.len()] == '\n');
            }
        }
    }
    lemma_file_key_line(s);
    let kept = text::without_return(s);
    text::lemma_position(kept, '=');
    assert(kept[8] == '=');
    assert(kept.contains('='));
    assert(text::position(kept, '=') == 8);
    let name = kept.take(8);
    lemma_trimmed_length(name);
    lemma_trimmed_length(text::trimmed_start(name));
    assert(text::lowered(text::trimmed(name)).len() <= 8);
    assert(text::lowered("PrivateKey"@).len() == 10);
}

/// The line of the port sets no key.
proof fn lemma_port_line(port: nat)
    ensures
        file_key(line("ListenPort = "@, text::decimal(port))) is None,
{
    reveal_strlit("ListenPort = ");
    reveal_strlit("PrivateKey");
    let label = "ListenPort = "@;
    let digits = text::decimal(port);
    let s = label + digits;
    text::lemma_decimal(port);
    assert forall|i: int| 0 <= i < s.len() implies s[i] != '\n' && s[i] != '\r' by {
        if i >= label.len() {
            assert(s[i] == digits[i - label.len()]);
            assert(text::is_digit(digits[i - label.len()]));
        }
    }
    assert(!s.contains('\n'));
    lemma_file_key_line(s);
    assert(text::without_return(s) == s);
    text::lemma_position(s, '=');
    assert(s[11] == '=');
    assert(s.contains('='));
    assert(text::position(s, '=') == 11);
    let name = s.take(11);
    assert(text::trimmed_start(name) == name);
    assert(name.last() == ' ');
    assert(text::trimmed_end(name) == text::trimmed_end(name.drop_last()));
    assert(text::trimmed_end(name.drop_last()) == name.drop_last());
    assert(text::lowered(name.drop_last())[0] == 'l');
    assert(text::lowered("PrivateKey"@)[0] == 'p');
}

/// The line of the private key sets it.
proof fn lemma_key_line(key: Seq<char>)
    requires
        keys::base64_only(key),
    ensures
        file_key(line("PrivateKey = "@, key)) == Some(key),
{
    reveal_strlit("PrivateKey = ");
    reveal_strlit("PrivateKey");
    let label = "PrivateKey = "@;
    let s = label + key;
    assert forall|i: int| 0 <= i < s.len() implies s[i] != '\n' && s[i] != '\r' by {
        if i >= label.len() {
            assert(s[i] == key[i - label.len()]);
            assert(keys::is_base64_char(key[i - label.len()]));
        }
    }
    assert(!s.contains('\n'));
    lemma_file_key_line(s);
    assert(text::without_return(s) == s);
    text::lemma_position(s, '=');
    assert(s[11] == '=');
    assert(s.contains('='));
    assert(text::position(s, '=') == 11);
    let name = s.take(11);
    assert(text::trimmed_start(name) == name);
    assert(name.last() == ' ');
    assert(name.drop_last() =~= "PrivateKey"@);
    assert(text::trimmed_end(name.drop_last()) == name.drop_last());
    assert(text::trimmed(name) == "PrivateKey"@);
    let value = s.skip(12);
    assert(value[0] == ' ');
    assert(value.skip(1) =~= key);
    assert(text::trimmed_start(value) == text::trimmed_start(key));
    keys::lemma_base64_trimmed(key);
}

/// The private key is read back of the file it was written to, whatever else
/// the configuration says, as long as the address does not itself set one.
#[verifier::spinoff_prover]
pub proof fn law_written_key_is_extracted(cfg: ServerConfig, key: Seq<char>)
    requires
        keys::base64_only(key),
        file_key(line("Address = "@, cfg.address@)) is None,
    ensures
        file_key(config_text(cfg, key)) == Some(key),
{
    let comment = "# Généré par perses-mother — ne pas éditer à la main."@;
    let title = "[Interface]"@;
    reveal_strlit("# Généré par perses-mother — ne pas éditer à la main.");
    reveal_strlit("[Interface]");
    let address = "Address = "@ + cfg.address@;
    let port = "ListenPort = "@ + text::decimal(cfg.listen_port as nat);
    let secret = "PrivateKey = "@ + key;
    let rest = tail_text(cfg) + peers_text(cfg.peers@);
    assert(!comment.contains('\n'));
    assert(!title.contains('\n'));
    lemma_file_key_line(comment);
    lemma_file_key_line(title);
    lemma_no_equals(text::without_return(comment));
    lemma_no_equals(text::without_return(title));
    lemma_port_line(cfg.listen_port as nat);
    lemma_key_line(key);
    let from_key = secret.push('\n') + rest;
    let from_port = port.push('\n') + from_key;
    let from_address = address.push('\n') + from_port;
    let from_title = title.push('\n') + from_address;
    lemma_file_key_join(secret, rest);
    lemma_file_key_join(port, from_key);
    lemma_file_key_join(address, from_port);
    lemma_file_key_join(title, from_address);
    lemma_file_key_join(comment, from_title);
    assert(comment + Seq::empty() =~= comment);
    assert(title + Seq::empty() =~= title);
    lemma_seven_parts(
        comment.push('\n'),
        title.push('\n'),
        address.push('\n'),
        port.push('\n'),
        secret.push('\n'),
        tail_text(cfg),
        peers_text(cfg.peers@),
        Seq::empty(),
    );
    lemma_no_more(config_text(cfg, key), peers_text(cfg.peers@));
}

/// Nothing behind a text changes none.
proof fn lemma_no_more(a: Seq<char>, b: Seq<char>)
    ensures
        a + Seq::empty() == a,
        b + Seq::empty() == b,
{
    assert(a + Seq::empty() =~= a);
    assert(b + Seq::empty() =~= b);
}

/// Any private key that a configuration is rendered with is read back of the
/// file, its padding with it, where it has no white space around it. The
/// address must not itself set a key: on one line it never does.
pub proof fn law_rendered_key_is_extracted(
    cfg: ServerConfig,
    key: Seq<char>,
    rendered: Result<String, WgError>,
)
    requires
        renders(rendered, cfg, key),
        rendered is Ok,
        text::trimmed(key) == key,
        !cfg.address@.contains('\n') || file_key(line("Address = "@, cfg.address@)) is None,
    ensures
        rendered matches Ok(file) && file_key(file@) == Some(key),
{
    if !cfg.address@.contains('\n') {
        law_one_line_address_sets_no_key(cfg.address@);
    }
    law_written_key_is_extracted(cfg, key);
}

/// A section of a configuration file: the remark right above its title, the
/// title, and the settings with their values.
#[verifier::ext_equal]
pub struct Section {
    /// What the remark says.
    pub remark: Option<Seq<char>>,
    /// The title, without its brackets.
    pub title: Seq<char>,
    /// The settings, each with its value.
    pub settings: Seq<(Seq<char>, Seq<char>)>,
}

/// What was read of a file so far: its sections, and a remark that none
/// follows yet.
#[verifier::ext_equal]
pub struct Reading {
    /// The sections.
    pub sections: Seq<Section>,
    /// The remark.
    pub remark: Option<Seq<char>>,
}

/// A setting that the last section has besides its others.
pub open spec fn with_setting(so_far: Reading, name: Seq<char>, value: Seq<char>) -> Reading {
    let last = so_far.sections.last();
    Reading {
        sections: so_far.sections.drop_last().push(
            Section { settings: last.settings.push((name, value)), ..last },
        ),
        ..so_far
    }
}

/// Reads one line of a file: a title in brackets, a remark, a setting with an
/// equals sign between spaces, or nothing.
pub open spec fn read_line(so_far: Reading, line: Seq<char>) -> Reading {
    if line.len() == 0 {
        Reading { remark: None, ..so_far }
    } else if line[0] == '#' {
        Reading { remark: Some(line.skip(2)), ..so_far }
    } else if line[0] == '[' {
        let section = Section {
            remark: so_far.remark,
            title: line.subrange(1, line.len() - 1),
            settings: Seq::empty(),
        };
        Reading { sections: so_far.sections.push(section), remark: None }
    } else {
        let at = text::position(line, '=');
        with_setting(so_far, line.take(at - 1), line.skip(at + 2))
    }
}

/// Reads lines, one after the other.
pub open spec fn read_lines(so_far: Reading, lines: Seq<Seq<char>>) -> Reading
    decreases lines.len(),
{
    if lines.len() == 0 {
        so_far
    } else {
        read_lines(read_line(so_far, lines[0]), lines.skip(1))
    }
}

/// Reads a text from where one was read so far.
#[verifier::opaque]
pub open spec fn read_text(so_far: Reading, file: Seq<char>) -> Reading {
    read_lines(so_far, text::pieces(file, '\n'))
}

/// The sections of a file.
pub open spec fn sections_of(file: Seq<char>) -> Seq<Section> {
    read_text(Reading { sections: Seq::empty(), remark: None }, file).sections
}

/// The value of a setting, if there is one: the last counts.
pub open spec fn setting(settings: Seq<(Seq<char>, Seq<char>)>, name: Seq<char>) -> Option<
    Seq<char>,
>
    decreases settings.len(),
{
    if settings.len() == 0 {
        None
    } else if settings.last().0 == name {
        Some(settings.last().1)
    } else {
        setting(settings.drop_last(), name)
    }
}

/// The items of a list with commas, without a space before them.
pub open spec fn items(value: Seq<char>) -> Seq<Seq<char>> {
    let parts = text::pieces(value, ',');
    Seq::new(
        parts.len(),
        |i: int|
            if parts[i].len() > 0 && parts[i][0] == ' ' {
                parts[i].skip(1)
            } else {
                parts[i]
            },
    )
}

/// A setting is there, and has this value, if and only if one is wanted.
pub open spec fn sets(section: Section, name: Seq<char>, value: Option<Seq<char>>) -> bool {
    setting(section.settings, name) == value
}

/// A setting is there, and is this number, if and only if one is wanted.
pub open spec fn sets_number(section: Section, name: Seq<char>, number: Option<nat>) -> bool {
    match (setting(section.settings, name), number) {
        (Some(value), Some(n)) => text::unsigned_value(value, n) == Some(n),
        (None, None) => true,
        _ => false,
    }
}

/// A setting is there, and lists these items, if and only if some are wanted.
pub open spec fn sets_list(section: Section, name: Seq<char>, wanted: Seq<Seq<char>>) -> bool {
    match setting(section.settings, name) {
        Some(value) => wanted.len() > 0 && items(value) == wanted,
        None => wanted.len() == 0,
    }
}

/// One where something is there, and zero where nothing is.
pub open spec fn one_if(there: bool) -> nat {
    if there {
        1
    } else {
        0
    }
}

/// A section says the interface of a configuration, and nothing more.
pub open spec fn says_interface(section: Section, cfg: ServerConfig, key: Seq<char>) -> bool {
    let rules = cfg.wan_interface is Some;
    &&& section.title == "Interface"@
    &&& sets(section, "Address"@, Some(cfg.address@))
    &&& sets_number(section, "ListenPort"@, Some(cfg.listen_port as nat))
    &&& sets(section, "PrivateKey"@, Some(key))
    &&& sets_list(section, "DNS"@, text::string_views(cfg.dns@))
    &&& sets_number(
        section,
        "MTU"@,
        match cfg.mtu {
            Some(mtu) => Some(mtu as nat),
            None => None,
        },
    )
    &&& rules == setting(section.settings, "PostUp"@) is Some
    &&& rules == setting(section.settings, "PostDown"@) is Some
    &&& rules ==> {
        let wan = cfg.wan_interface.unwrap()@;
        &&& sets(section, "PostUp"@, Some(nat_up_text(cfg.interface@, wan)))
        &&& sets(section, "PostDown"@, Some(nat_down_text(cfg.interface@, wan)))
    }
    &&& section.settings.len() == 3 + one_if(cfg.dns@.len() > 0) + one_if(cfg.mtu is Some) + 2
        * one_if(rules)
}

/// A section says a peer, and nothing more.
pub open spec fn says_peer(section: Section, peer: Peer) -> bool {
    &&& section.title == "Peer"@
    &&& section.remark == text::option_view(peer.name)
    &&& sets(section, "PublicKey"@, Some(peer.public_key@))
    &&& sets(section, "PresharedKey"@, text::option_view(peer.preshared_key))
    &&& sets_list(section, "AllowedIPs"@, text::string_views(peer.allowed_ips@))
    &&& sets_number(
        section,
        "PersistentKeepalive"@,
        match peer.persistent_keepalive {
            Some(seconds) => Some(seconds as nat),
            None => None,
        },
    )
    &&& section.settings.len() == 2 + one_if(peer.preshared_key is Some) + one_if(
        peer.persistent_keepalive is Some,
    )
}

/// Texts that can stand in a list with commas, on one line.
pub open spec fn are_items(texts: Seq<Seq<char>>) -> bool {
    forall|i: int|
        0 <= i < texts.len() ==> !(#[trigger] texts[i]).contains(',') && !texts[i].contains('\n')
            && !(texts[i].len() > 0 && texts[i][0] == ' ')
}

/// A peer whose texts stand on one line each.
pub open spec fn is_one_line_peer(peer: Peer) -> bool {
    &&& !peer.public_key@.contains('\n')
    &&& peer.preshared_key matches Some(psk) ==> !psk@.contains('\n')
    &&& peer.name matches Some(name) ==> !name@.contains('\n')
    &&& are_items(text::string_views(peer.allowed_ips@))
}

/// A configuration whose texts stand on one line each.
pub open spec fn is_one_line_config(cfg: ServerConfig) -> bool {
    &&& !cfg.address@.contains('\n')
    &&& cfg.wan_interface matches Some(wan) ==> !wan@.contains('\n')
    &&& are_items(text::string_views(cfg.dns@))
    &&& forall|i: int| 0 <= i < cfg.peers@.len() ==> is_one_line_peer(#[trigger] cfg.peers@[i])
}

/// A list is read back item by item.
pub proof fn law_list_reads_back(texts: Seq<Seq<char>>)
    requires
        texts.len() > 0,
        are_items(texts),
    ensures
        items(listed(texts)) == texts,
        !listed(texts).contains('\n'),
{
    lemma_listed(texts);
    let parts = text::pieces(listed(texts), ',');
    assert forall|i: int| 0 <= i < texts.len() implies items(listed(texts))[i] == texts[i] by {
        assert(!(texts[i].len() > 0 && texts[i][0] == ' '));
        if i > 0 {
            assert(parts[i] == seq![' '] + texts[i]);
            assert(parts[i].skip(1) =~= texts[i]);
        }
    }
    assert(items(listed(texts)) =~= texts);
}

/// The pieces of a list: behind the first each starts with a space.
proof fn lemma_listed(texts: Seq<Seq<char>>)
    requires
        texts.len() > 0,
        are_items(texts),
    ensures
        text::pieces(listed(texts), ',').len() == texts.len(),
        text::pieces(listed(texts), ',')[0] == texts[0],
        forall|i: int|
            0 < i < texts.len() ==> #[trigger] text::pieces(listed(texts), ',')[i] == seq![' ']
                + texts[i],
        !listed(texts).contains('\n'),
    decreases texts.len(),
{
    reveal_strlit(", ");
    let last = texts.last();
    assert(!texts[texts.len() - 1].contains(','));
    if texts.len() == 1 {
        text::lemma_pieces_one(last, ',');
    } else {
        let before = texts.drop_last();
        assert forall|i: int| 0 <= i < before.len() implies !(#[trigger] before[i]).contains(',')
            && !before[i].contains('\n') && !(before[i].len() > 0 && before[i][0] == ' ') by {
            assert(before[i] == texts[i]);
        }
        lemma_listed(before);
        let head = listed(before);
        let tail = seq![' '] + last;
        assert(listed(texts) =~= head.push(',') + tail);
        assert(!tail.contains(',')) by {
            if tail.contains(',') {
                let i = choose|i: int| 0 <= i < tail.len() && tail[i] == ',';
                assert(last[i - 1] == ',');
            }
        }
        text::lemma_pieces_join(head, ',', tail);
        text::lemma_pieces_one(tail, ',');
        assert(!listed(texts).contains('\n')) by {
            if listed(texts).contains('\n') {
                let i = choose|i: int| 0 <= i < listed(texts).len() && listed(texts)[i] == '\n';
                if i < head.len() {
                    assert(head[i] == '\n');
                } else if i >= head.len() + 2 {
                    assert(last[i - head.len() - 2] == '\n');
                }
            }
        }
    }
}

/// A line is read before what follows it.
proof fn lemma_read_row(so_far: Reading, row: Seq<char>, rest: Seq<char>)
    requires
        !row.contains('\n'),
    ensures
        read_text(so_far, row.push('\n') + rest) == read_text(read_line(so_far, row), rest),
{
    reveal(read_text);
    text::lemma_pieces_join(row, '\n', rest);
    text::lemma_pieces_one(row, '\n');
    let rows = text::pieces(rest, '\n');
    assert((seq![row] + rows).skip(1) =~= rows);
    assert((seq![row] + rows)[0] == row);
}

/// A setting is read before what follows it.
proof fn lemma_read_setting(
    so_far: Reading,
    label: Seq<char>,
    name: Seq<char>,
    value: Seq<char>,
    rest: Seq<char>,
)
    requires
        label == name + seq![' ', '=', ' '],
        name.len() > 0,
        name[0] != '#',
        name[0] != '[',
        !name.contains('='),
        !name.contains('\n'),
        !value.contains('\n'),
    ensures
        read_text(so_far, line(label, value) + rest) == read_text(
            with_setting(so_far, name, value),
            rest,
        ),
{
    let row = label + value;
    assert(!row.contains('\n')) by {
        if row.contains('\n') {
            let i = choose|i: int| 0 <= i < row.len() && row[i] == '\n';
            if i < name.len() {
                assert(name[i] == '\n');
            } else if i >= label.len() {
                assert(value[i - label.len()] == '\n');
            }
        }
    }
    lemma_read_row(so_far, row, rest);
    let at = name.len() as int + 1;
    text::lemma_position(row, '=');
    assert(row[at] == '=');
    assert(row.contains('='));
    let found = text::position(row, '=');
    if found < at {
        if found < name.len() {
            assert(name[found] == '=');
        }
        assert(false);
    }
    assert(found == at);
    assert(row.take(at - 1) =~= name);
    assert(row.skip(at + 2) =~= value);
    assert(row[0] == name[0]);
}

/// A setting that may be missing is read before what follows it.
proof fn lemma_read_optional(
    so_far: Reading,
    label: Seq<char>,
    name: Seq<char>,
    value: Option<Seq<char>>,
    rest: Seq<char>,
)
    requires
        label == name + seq![' ', '=', ' '],
        name.len() > 0,
        name[0] != '#',
        name[0] != '[',
        !name.contains('='),
        !name.contains('\n'),
        value matches Some(v) ==> !v.contains('\n'),
    ensures
        read_text(so_far, optional_line(label, value) + rest) == read_text(
            with_optional(so_far, name, value),
            rest,
        ),
{
    match value {
        Some(v) => lemma_read_setting(so_far, label, name, v, rest),
        None => assert(optional_line(label, value) + rest =~= rest),
    }
}

/// A line that may be missing.
spec fn optional_line(label: Seq<char>, value: Option<Seq<char>>) -> Seq<char> {
    match value {
        Some(v) => line(label, v),
        None => Seq::empty(),
    }
}

/// A setting that may be missing.
spec fn with_optional(so_far: Reading, name: Seq<char>, value: Option<Seq<char>>) -> Reading {
    match value {
        Some(v) => with_setting(so_far, name, v),
        None => so_far,
    }
}

/// A number has no end of a line in it.
proof fn lemma_number_line(n: nat)
    ensures
        !text::decimal(n).contains('\n'),
        text::unsigned_value(text::decimal(n), n) == Some(n),
{
    text::lemma_decimal(n);
    text::lemma_decimal_reads_back(n, n);
    let digits = text::decimal(n);
    if digits.contains('\n') {
        let i = choose|i: int| 0 <= i < digits.len() && digits[i] == '\n';
        assert(text::is_digit(digits[i]));
    }
}

/// One more setting is found, and the others as before.
proof fn lemma_setting_pushed(
    settings: Seq<(Seq<char>, Seq<char>)>,
    name: Seq<char>,
    value: Seq<char>,
    wanted: Seq<char>,
)
    ensures
        setting(settings.push((name, value)), wanted) == (if name == wanted {
            Some(value)
        } else {
            setting(settings, wanted)
        }),
{
    assert(settings.push((name, value)).drop_last() =~= settings);
}

/// One more setting that may be missing.
spec fn and_setting(
    settings: Seq<(Seq<char>, Seq<char>)>,
    name: Seq<char>,
    value: Option<Seq<char>>,
) -> Seq<(Seq<char>, Seq<char>)> {
    match value {
        Some(v) => settings.push((name, v)),
        None => settings,
    }
}

/// What is found with one more setting that may be missing.
proof fn lemma_and_setting(
    settings: Seq<(Seq<char>, Seq<char>)>,
    name: Seq<char>,
    value: Option<Seq<char>>,
    wanted: Seq<char>,
)
    ensures
        setting(and_setting(settings, name, value), wanted) == (if name == wanted && value is Some {
            value
        } else {
            setting(settings, wanted)
        }),
        and_setting(settings, name, value).len() == settings.len() + one_if(value is Some),
{
    if let Some(v) = value {
        lemma_setting_pushed(settings, name, v, wanted);
    }
}

/// The number of an optional setting, written.
spec fn written_number(n: Option<nat>) -> Option<Seq<char>> {
    match n {
        Some(n) => Some(text::decimal(n)),
        None => None,
    }
}

/// The keepalive of a peer.
spec fn keepalive_of(peer: Peer) -> Option<nat> {
    match peer.persistent_keepalive {
        Some(seconds) => Some(seconds as nat),
        None => None,
    }
}

/// The settings of a peer.
spec fn peer_settings(peer: Peer) -> Seq<(Seq<char>, Seq<char>)> {
    let key = and_setting(Seq::empty(), "PublicKey"@, Some(peer.public_key@));
    let psk = and_setting(key, "PresharedKey"@, text::option_view(peer.preshared_key));
    let ips = and_setting(
        psk,
        "AllowedIPs"@,
        Some(listed(text::string_views(peer.allowed_ips@))),
    );
    and_setting(ips, "PersistentKeepalive"@, written_number(keepalive_of(peer)))
}

/// The section of a peer.
spec fn peer_section(peer: Peer) -> Section {
    Section {
        remark: text::option_view(peer.name),
        title: "Peer"@,
        settings: peer_settings(peer),
    }
}

/// The section of a peer says the peer.
proof fn lemma_peer_section(peer: Peer)
    requires
        is_one_line_peer(peer),
        peer.allowed_ips@.len() > 0,
    ensures
        says_peer(peer_section(peer), peer),
{
    reveal_strlit("PublicKey");
    reveal_strlit("PresharedKey");
    reveal_strlit("AllowedIPs");
    reveal_strlit("PersistentKeepalive");
    let none = Seq::<(Seq<char>, Seq<char>)>::empty();
    let psk = text::option_view(peer.preshared_key);
    let ips = text::string_views(peer.allowed_ips@);
    let keepalive = written_number(keepalive_of(peer));
    let with_key = and_setting(none, "PublicKey"@, Some(peer.public_key@));
    let with_psk = and_setting(with_key, "PresharedKey"@, psk);
    let with_ips = and_setting(with_psk, "AllowedIPs"@, Some(listed(ips)));
    law_list_reads_back(ips);
    if let Some(n) = keepalive_of(peer) {
        lemma_number_line(n);
    }
    let names = seq!["PublicKey"@, "PresharedKey"@, "AllowedIPs"@, "PersistentKeepalive"@];
    assert("PublicKey"@.len() == 9 && "PresharedKey"@.len() == 12 && "AllowedIPs"@.len() == 10
        && "PersistentKeepalive"@.len() == 19);
    assert forall|i: int| 0 <= i < 4 implies setting(
        peer_settings(peer),
        #[trigger] names[i],
    ) == (if i == 0 {
        Some(peer.public_key@)
    } else if i == 1 {
        psk
    } else if i == 2 {
        Some(listed(ips))
    } else {
        keepalive
    }) by {
        lemma_and_setting(none, "PublicKey"@, Some(peer.public_key@), names[i]);
        lemma_and_setting(with_key, "PresharedKey"@, psk, names[i]);
        lemma_and_setting(with_psk, "AllowedIPs"@, Some(listed(ips)), names[i]);
        lemma_and_setting(with_ips, "PersistentKeepalive"@, keepalive, names[i]);
    }
    lemma_and_setting(none, "PublicKey"@, Some(peer.public_key@), names[0]);
    lemma_and_setting(with_key, "PresharedKey"@, psk, names[0]);
    lemma_and_setting(with_psk, "AllowedIPs"@, Some(listed(ips)), names[0]);
    lemma_and_setting(with_ips, "PersistentKeepalive"@, keepalive, names[0]);
    assert(names[0] == "PublicKey"@ && names[1] == "PresharedKey"@ && names[2] == "AllowedIPs"@
        && names[3] == "PersistentKeepalive"@);
}

/// What was read so far, with one more section.
spec fn with_section(so_far: Reading, section: Section) -> Reading {
    Reading { sections: so_far.sections.push(section), remark: None }
}

/// A section with one more setting that may be missing.
proof fn lemma_with_optional(
    so_far: Reading,
    section: Section,
    name: Seq<char>,
    value: Option<Seq<char>>,
)
    ensures
        with_optional(with_section(so_far, section), name, value) == with_section(
            so_far,
            Section { settings: and_setting(section.settings, name, value), ..section },
        ),
{
    let reading = with_section(so_far, section);
    if let Some(v) = value {
        assert(reading.sections.drop_last() =~= so_far.sections);
        assert(reading.sections.last() == section);
    }
}

/// A title is read before what follows it.
proof fn lemma_read_title(
    so_far: Reading,
    bracketed: Seq<char>,
    title: Seq<char>,
    rest: Seq<char>,
)
    requires
        bracketed == seq!['['] + title + seq![']'],
        !bracketed.contains('\n'),
    ensures
        read_text(so_far, line(bracketed, Seq::empty()) + rest) == read_text(
            with_section(
                so_far,
                Section { remark: so_far.remark, title, settings: Seq::empty() },
            ),
            rest,
        ),
{
    assert(bracketed + Seq::empty() =~= bracketed);
    assert(bracketed.subrange(1, bracketed.len() - 1) =~= title);
    lemma_read_row(so_far, bracketed, rest);
}

/// The blank line, the remark and the title of a peer.
proof fn lemma_read_peer_title(so_far: Reading, peer: Peer, rest: Seq<char>)
    requires
        is_one_line_peer(peer),
    ensures
        read_text(
            so_far,
            seq!['\n'] + (optional_line("# "@, text::option_view(peer.name)) + (line(
                "[Peer]"@,
                Seq::empty(),
            ) + rest)),
        ) == read_text(
            with_section(
                so_far,
                Section {
                    remark: text::option_view(peer.name),
                    title: "Peer"@,
                    settings: Seq::empty(),
                },
            ),
            rest,
        ),
{
    reveal_strlit("# ");
    reveal_strlit("[Peer]");
    reveal_strlit("Peer");
    let none = Seq::<char>::empty();
    let from_title = line("[Peer]"@, none) + rest;
    let remark = text::option_view(peer.name);
    let from_remark = optional_line("# "@, remark) + from_title;
    lemma_read_row(so_far, none, from_remark);
    assert(none.push('\n') + from_remark =~= seq!['\n'] + from_remark);
    let blank = Reading { remark: None, ..so_far };
    let remarked = Reading { remark, ..so_far };
    assert(read_text(blank, from_remark) == read_text(remarked, from_title)) by {
        match remark {
            Some(name) => {
                let row = "# "@ + name;
                assert(!row.contains('\n')) by {
                    if row.contains('\n') {
                        let i = choose|i: int| 0 <= i < row.len() && row[i] == '\n';
                        assert(name[i - 2] == '\n');
                    }
                }
                lemma_read_row(blank, row, from_title);
                assert(row.skip(2) =~= name);
            },
            None => {
                assert(from_remark =~= from_title);
            },
        }
    }
    assert("[Peer]"@ =~= seq!['['] + "Peer"@ + seq![']']);
    assert(!"[Peer]"@.contains('\n'));
    lemma_read_title(remarked, "[Peer]"@, "Peer"@, rest);
}

/// A setting that may be missing is read into the last section.
proof fn lemma_read_part(
    so_far: Reading,
    section: Section,
    label: Seq<char>,
    name: Seq<char>,
    value: Option<Seq<char>>,
    rest: Seq<char>,
)
    requires
        is_label(label, name),
        value matches Some(v) ==> !v.contains('\n'),
    ensures
        read_text(with_section(so_far, section), optional_line(label, value) + rest) == read_text(
            with_section(
                so_far,
                Section { settings: and_setting(section.settings, name, value), ..section },
            ),
            rest,
        ),
{
    lemma_read_optional(with_section(so_far, section), label, name, value, rest);
    lemma_with_optional(so_far, section, name, value);
}

/// The settings of a peer are read before what follows them.
proof fn lemma_read_peer_settings(
    so_far: Reading,
    titled: Section,
    key: Option<Seq<char>>,
    psk: Option<Seq<char>>,
    ips: Option<Seq<char>>,
    keepalive: Option<Seq<char>>,
    rest: Seq<char>,
)
    requires
        key matches Some(v) ==> !v.contains('\n'),
        psk matches Some(v) ==> !v.contains('\n'),
        ips matches Some(v) ==> !v.contains('\n'),
        keepalive matches Some(v) ==> !v.contains('\n'),
    ensures
        read_text(
            with_section(so_far, titled),
            optional_line("PublicKey = "@, key) + (optional_line("PresharedKey = "@, psk) + (
            optional_line("AllowedIPs = "@, ips) + (optional_line(
                "PersistentKeepalive = "@,
                keepalive,
            ) + rest))),
        ) == read_text(
            with_section(
                so_far,
                Section {
                    settings: and_setting(
                        and_setting(
                            and_setting(
                                and_setting(titled.settings, "PublicKey"@, key),
                                "PresharedKey"@,
                                psk,
                            ),
                            "AllowedIPs"@,
                            ips,
                        ),
                        "PersistentKeepalive"@,
                        keepalive,
                    ),
                    ..titled
                },
            ),
            rest,
        ),
{
    lemma_peer_labels();
    let keyed = Section { settings: and_setting(titled.settings, "PublicKey"@, key), ..titled };
    let shared = Section { settings: and_setting(keyed.settings, "PresharedKey"@, psk), ..titled };
    let routed = Section { settings: and_setting(shared.settings, "AllowedIPs"@, ips), ..titled };
    let from_keepalive = optional_line("PersistentKeepalive = "@, keepalive) + rest;
    let from_ips = optional_line("AllowedIPs = "@, ips) + from_keepalive;
    let from_psk = optional_line("PresharedKey = "@, psk) + from_ips;
    lemma_read_part(so_far, titled, "PublicKey = "@, "PublicKey"@, key, from_psk);
    lemma_read_part(so_far, keyed, "PresharedKey = "@, "PresharedKey"@, psk, from_ips);
    lemma_read_part(so_far, shared, "AllowedIPs = "@, "AllowedIPs"@, ips, from_keepalive);
    lemma_read_part(
        so_far,
        routed,
        "PersistentKeepalive = "@,
        "PersistentKeepalive"@,
        keepalive,
        rest,
    );
}

/// The section of a peer, part by part.
proof fn lemma_peer_parts(peer: Peer, rest: Seq<char>)
    ensures
        peer_text(peer) + rest == seq!['\n'] + (optional_line("# "@, text::option_view(peer.name))
            + (line("[Peer]"@, Seq::empty()) + (optional_line(
            "PublicKey = "@,
            Some(peer.public_key@),
        ) + (optional_line("PresharedKey = "@, text::option_view(peer.preshared_key)) + (
        optional_line(
            "AllowedIPs = "@,
            Some(listed(text::string_views(peer.allowed_ips@))),
        ) + (optional_line("PersistentKeepalive = "@, written_number(keepalive_of(peer)))
            + rest)))))),
{
    let name = optional_line("# "@, text::option_view(peer.name));
    let title = line("[Peer]"@, Seq::empty());
    let key = line("PublicKey = "@, peer.public_key@);
    let psk = optional_line("PresharedKey = "@, text::option_view(peer.preshared_key));
    let ips = line("AllowedIPs = "@, listed(text::string_views(peer.allowed_ips@)));
    let keepalive = optional_line(
        "PersistentKeepalive = "@,
        written_number(keepalive_of(peer)),
    );
    assert(peer_text(peer) == seq!['\n'] + name + title + key + psk + ips + keepalive);
    lemma_seven_parts(seq!['\n'], name, title, key, psk, ips, keepalive, rest);
}

/// Texts put together in one order or the other are the same.
proof fn lemma_seven_parts(
    a: Seq<char>,
    b: Seq<char>,
    c: Seq<char>,
    d: Seq<char>,
    e: Seq<char>,
    f: Seq<char>,
    g: Seq<char>,
    rest: Seq<char>,
)
    ensures
        a + b + c + d + e + f + g + rest == a + (b + (c + (d + (e + (f + (g + rest)))))),
{
    assert(a + b + c + d + e + f + g + rest =~= a + (b + (c + (d + (e + (f + (g + rest)))))));
}

/// The section of a peer is read before what follows it.
proof fn lemma_read_peer(so_far: Reading, peer: Peer, rest: Seq<char>)
    requires
        is_one_line_peer(peer),
        peer.allowed_ips@.len() > 0,
    ensures
        read_text(so_far, peer_text(peer) + rest) == read_text(
            with_section(so_far, peer_section(peer)),
            rest,
        ),
{
    let psk = text::option_view(peer.preshared_key);
    let ips = Some(listed(text::string_views(peer.allowed_ips@)));
    let keepalive = written_number(keepalive_of(peer));
    let key = Some(peer.public_key@);
    law_list_reads_back(text::string_views(peer.allowed_ips@));
    if let Some(n) = keepalive_of(peer) {
        lemma_number_line(n);
    }
    let titled = Section {
        remark: text::option_view(peer.name),
        title: "Peer"@,
        settings: Seq::empty(),
    };
    let from_key = optional_line("PublicKey = "@, key) + (optional_line("PresharedKey = "@, psk) + (
    optional_line("AllowedIPs = "@, ips) + (optional_line("PersistentKeepalive = "@, keepalive)
        + rest)));
    lemma_peer_parts(peer, rest);
    lemma_read_peer_title(so_far, peer, from_key);
    lemma_read_peer_settings(so_far, titled, key, psk, ips, keepalive, rest);
}

/// A label that a setting may have.
spec fn is_label(label: Seq<char>, name: Seq<char>) -> bool {
    &&& label == name + seq![' ', '=', ' ']
    &&& name.len() > 0
    &&& name[0] != '#'
    &&& name[0] != '['
    &&& !name.contains('=')
    &&& !name.contains('\n')
}

/// The labels of a peer.
proof fn lemma_peer_labels()
    ensures
        is_label("PublicKey = "@, "PublicKey"@),
        is_label("PresharedKey = "@, "PresharedKey"@),
        is_label("AllowedIPs = "@, "AllowedIPs"@),
        is_label("PersistentKeepalive = "@, "PersistentKeepalive"@),
{
    reveal_strlit("PublicKey = ");
    reveal_strlit("PublicKey");
    reveal_strlit("PresharedKey = ");
    reveal_strlit("PresharedKey");
    reveal_strlit("AllowedIPs = ");
    reveal_strlit("AllowedIPs");
    reveal_strlit("PersistentKeepalive = ");
    reveal_strlit("PersistentKeepalive");
    assert("PublicKey = "@ =~= "PublicKey"@ + seq![' ', '=', ' ']);
    assert("PresharedKey = "@ =~= "PresharedKey"@ + seq![' ', '=', ' ']);
    assert("AllowedIPs = "@ =~= "AllowedIPs"@ + seq![' ', '=', ' ']);
    assert("PersistentKeepalive = "@ =~= "PersistentKeepalive"@ + seq![' ', '=', ' ']);
}

/// The labels of the interface.
proof fn lemma_interface_labels()
    ensures
        is_label("Address = "@, "Address"@),
        is_label("ListenPort = "@, "ListenPort"@),
        is_label("PrivateKey = "@, "PrivateKey"@),
        is_label("DNS = "@, "DNS"@),
        is_label("MTU = "@, "MTU"@),
        is_label("PostUp = "@, "PostUp"@),
        is_label("PostDown = "@, "PostDown"@),
{
    reveal_strlit("Address = ");
    reveal_strlit("Address");
    reveal_strlit("ListenPort = ");
    reveal_strlit("ListenPort");
    reveal_strlit("PrivateKey = ");
    reveal_strlit("PrivateKey");
    reveal_strlit("DNS = ");
    reveal_strlit("DNS");
    reveal_strlit("MTU = ");
    reveal_strlit("MTU");
    reveal_strlit("PostUp = ");
    reveal_strlit("PostUp");
    reveal_strlit("PostDown = ");
    reveal_strlit("PostDown");
    assert("Address = "@ =~= "Address"@ + seq![' ', '=', ' ']);
    assert("ListenPort = "@ =~= "ListenPort"@ + seq![' ', '=', ' ']);
    assert("PrivateKey = "@ =~= "PrivateKey"@ + seq![' ', '=', ' ']);
    assert("DNS = "@ =~= "DNS"@ + seq![' ', '=', ' ']);
    assert("MTU = "@ =~= "MTU"@ + seq![' ', '=', ' ']);
    assert("PostUp = "@ =~= "PostUp"@ + seq![' ', '=', ' ']);
    assert("PostDown = "@ =~= "PostDown"@ + seq![' ', '=', ' ']);
}

/// The sections of peers.
spec fn peer_sections(peers: Seq<Peer>) -> Seq<Section> {
    Seq::new(peers.len(), |i: int| peer_section(peers[i]))
}

/// The sections of peers are read before what follows them.
proof fn lemma_read_peers(so_far: Reading, peers: Seq<Peer>, rest: Seq<char>)
    requires
        peers.len() > 0,
        forall|i: int|
            0 <= i < peers.len() ==> is_one_line_peer(#[trigger] peers[i])
                && peers[i].allowed_ips@.len() > 0,
    ensures
        read_text(so_far, peers_text(peers) + rest) == read_text(
            Reading { sections: so_far.sections + peer_sections(peers), remark: None },
            rest,
        ),
    decreases peers.len(),
{
    let before = peers.drop_last();
    let last = peers.last();
    assert(is_one_line_peer(peers[peers.len() - 1]));
    assert(peers_text(peers) + rest =~= peers_text(before) + (peer_text(last) + rest));
    if before.len() == 0 {
        assert(peers_text(before) + (peer_text(last) + rest) =~= peer_text(last) + rest);
        lemma_read_peer(so_far, last, rest);
        assert(so_far.sections + peer_sections(peers) =~= so_far.sections.push(
            peer_section(last),
        ));
    } else {
        assert forall|i: int| 0 <= i < before.len() implies is_one_line_peer(#[trigger] before[i])
            && before[i].allowed_ips@.len() > 0 by {
            assert(before[i] == peers[i]);
        }
        lemma_read_peers(so_far, before, peer_text(last) + rest);
        let reading = Reading {
            sections: so_far.sections + peer_sections(before),
            remark: None,
        };
        lemma_read_peer(reading, last, rest);
        assert(reading.sections.push(peer_section(last)) =~= so_far.sections + peer_sections(
            peers,
        ));
    }
}

/// The MTU of a configuration.
spec fn mtu_of(cfg: ServerConfig) -> Option<nat> {
    match cfg.mtu {
        Some(mtu) => Some(mtu as nat),
        None => None,
    }
}

/// The DNS servers of a configuration, listed.
spec fn dns_of(cfg: ServerConfig) -> Option<Seq<char>> {
    if cfg.dns@.len() > 0 {
        Some(listed(text::string_views(cfg.dns@)))
    } else {
        None
    }
}

/// The commands that start the NAT of a configuration.
spec fn up_of(cfg: ServerConfig) -> Option<Seq<char>> {
    match cfg.wan_interface {
        Some(wan) => Some(nat_up_text(cfg.interface@, wan@)),
        None => None,
    }
}

/// The commands that end the NAT of a configuration.
spec fn down_of(cfg: ServerConfig) -> Option<Seq<char>> {
    match cfg.wan_interface {
        Some(wan) => Some(nat_down_text(cfg.interface@, wan@)),
        None => None,
    }
}

/// The settings above the private key, and the key.
spec fn head_settings(cfg: ServerConfig, key: Seq<char>) -> Seq<(Seq<char>, Seq<char>)> {
    let address = and_setting(Seq::empty(), "Address"@, Some(cfg.address@));
    let port = and_setting(
        address,
        "ListenPort"@,
        Some(text::decimal(cfg.listen_port as nat)),
    );
    and_setting(port, "PrivateKey"@, Some(key))
}

/// The settings below the private key, behind others.
spec fn tail_settings(
    before: Seq<(Seq<char>, Seq<char>)>,
    dns: Option<Seq<char>>,
    mtu: Option<Seq<char>>,
    up: Option<Seq<char>>,
    down: Option<Seq<char>>,
) -> Seq<(Seq<char>, Seq<char>)> {
    let with_dns = and_setting(before, "DNS"@, dns);
    let with_mtu = and_setting(with_dns, "MTU"@, mtu);
    let with_up = and_setting(with_mtu, "PostUp"@, up);
    and_setting(with_up, "PostDown"@, down)
}

/// The section of the interface.
spec fn interface_section(cfg: ServerConfig, key: Seq<char>, remark: Option<Seq<char>>) -> Section {
    Section {
        remark,
        title: "Interface"@,
        settings: tail_settings(
            head_settings(cfg, key),
            dns_of(cfg),
            written_number(mtu_of(cfg)),
            up_of(cfg),
            down_of(cfg),
        ),
    }
}

/// What is found among the settings above the private key.
proof fn lemma_head_settings(cfg: ServerConfig, key: Seq<char>, wanted: Seq<char>)
    ensures
        head_settings(cfg, key).len() == 3,
        setting(head_settings(cfg, key), wanted) == (if wanted == "PrivateKey"@ {
            Some(key)
        } else if wanted == "ListenPort"@ {
            Some(text::decimal(cfg.listen_port as nat))
        } else if wanted == "Address"@ {
            Some(cfg.address@)
        } else {
            None
        }),
{
    let none = Seq::<(Seq<char>, Seq<char>)>::empty();
    let port = Some(text::decimal(cfg.listen_port as nat));
    let with_address = and_setting(none, "Address"@, Some(cfg.address@));
    let with_port = and_setting(with_address, "ListenPort"@, port);
    lemma_and_setting(none, "Address"@, Some(cfg.address@), wanted);
    lemma_and_setting(with_address, "ListenPort"@, port, wanted);
    lemma_and_setting(with_port, "PrivateKey"@, Some(key), wanted);
}

/// What is found among the settings below the private key.
proof fn lemma_tail_settings(
    before: Seq<(Seq<char>, Seq<char>)>,
    dns: Option<Seq<char>>,
    mtu: Option<Seq<char>>,
    up: Option<Seq<char>>,
    down: Option<Seq<char>>,
    wanted: Seq<char>,
)
    ensures
        setting(tail_settings(before, dns, mtu, up, down), wanted) == (if wanted == "PostDown"@
            && down is Some {
            down
        } else if wanted == "PostUp"@ && up is Some {
            up
        } else if wanted == "MTU"@ && mtu is Some {
            mtu
        } else if wanted == "DNS"@ && dns is Some {
            dns
        } else {
            setting(before, wanted)
        }),
        tail_settings(before, dns, mtu, up, down).len() == before.len() + one_if(dns is Some)
            + one_if(mtu is Some) + one_if(up is Some) + one_if(down is Some),
{
    let with_dns = and_setting(before, "DNS"@, dns);
    let with_mtu = and_setting(with_dns, "MTU"@, mtu);
    let with_up = and_setting(with_mtu, "PostUp"@, up);
    lemma_and_setting(before, "DNS"@, dns, wanted);
    lemma_and_setting(with_dns, "MTU"@, mtu, wanted);
    lemma_and_setting(with_mtu, "PostUp"@, up, wanted);
    lemma_and_setting(with_up, "PostDown"@, down, wanted);
}

/// No two settings of the interface have one name.
proof fn lemma_interface_names()
    ensures
        "Address"@.len() == 7,
        "ListenPort"@.len() == 10,
        "PrivateKey"@.len() == 10,
        "ListenPort"@ != "PrivateKey"@,
        "DNS"@.len() == 3,
        "MTU"@.len() == 3,
        "DNS"@ != "MTU"@,
        "PostUp"@.len() == 6,
        "PostDown"@.len() == 8,
{
    reveal_strlit("Address");
    reveal_strlit("ListenPort");
    reveal_strlit("PrivateKey");
    reveal_strlit("DNS");
    reveal_strlit("MTU");
    reveal_strlit("PostUp");
    reveal_strlit("PostDown");
    assert("ListenPort"@[0] == 'L' && "PrivateKey"@[0] == 'P');
    assert("DNS"@[0] == 'D' && "MTU"@[0] == 'M');
}

/// The section of the interface says it.
proof fn lemma_interface_section(cfg: ServerConfig, key: Seq<char>, remark: Option<Seq<char>>)
    requires
        is_one_line_config(cfg),
    ensures
        says_interface(interface_section(cfg, key, remark), cfg, key),
{
    let before = head_settings(cfg, key);
    let dns = dns_of(cfg);
    let mtu = written_number(mtu_of(cfg));
    let up = up_of(cfg);
    let down = down_of(cfg);
    lemma_interface_names();
    lemma_number_line(cfg.listen_port as nat);
    if let Some(n) = mtu_of(cfg) {
        lemma_number_line(n);
    }
    if cfg.dns@.len() > 0 {
        law_list_reads_back(text::string_views(cfg.dns@));
    }
    lemma_head_settings(cfg, key, "Address"@);
    lemma_head_settings(cfg, key, "ListenPort"@);
    lemma_head_settings(cfg, key, "PrivateKey"@);
    lemma_head_settings(cfg, key, "DNS"@);
    lemma_head_settings(cfg, key, "MTU"@);
    lemma_head_settings(cfg, key, "PostUp"@);
    lemma_head_settings(cfg, key, "PostDown"@);
    lemma_tail_settings(before, dns, mtu, up, down, "Address"@);
    lemma_tail_settings(before, dns, mtu, up, down, "ListenPort"@);
    lemma_tail_settings(before, dns, mtu, up, down, "PrivateKey"@);
    lemma_tail_settings(before, dns, mtu, up, down, "DNS"@);
    lemma_tail_settings(before, dns, mtu, up, down, "MTU"@);
    lemma_tail_settings(before, dns, mtu, up, down, "PostUp"@);
    lemma_tail_settings(before, dns, mtu, up, down, "PostDown"@);
}

/// One command: the words, with a space between each two.
pub open spec fn command(words: Seq<Seq<char>>) -> Seq<char> {
    text::joined(words, ' ')
}

/// The three commands on the NAT, where `-A` adds a rule and `-D` takes it
/// away: what comes in by the interface and what goes out by it is let
/// through, and what leaves for the outside is given its address.
pub open spec fn nat_commands(verb: Seq<char>, interface: Seq<char>, wan: Seq<char>) -> Seq<
    Seq<char>,
> {
    seq![
        command(seq!["iptables"@, verb, "FORWARD"@, "-i"@, interface, "-j"@, "ACCEPT"@]),
        command(seq!["iptables"@, verb, "FORWARD"@, "-o"@, interface, "-j"@, "ACCEPT"@]),
        command(
            seq![
                "iptables"@,
                "-t"@,
                "nat"@,
                verb,
                "POSTROUTING"@,
                "-o"@,
                wan,
                "-j"@,
                "MASQUERADE"@,
            ],
        ),
    ]
}

/// A command, word by word.
proof fn lemma_forward(verb: Seq<char>, way: Seq<char>, interface: Seq<char>)
    ensures
        command(seq!["iptables"@, verb, "FORWARD"@, way, interface, "-j"@, "ACCEPT"@])
            == "iptables"@ + seq![' '] + verb + seq![' '] + "FORWARD"@ + seq![' '] + way + seq![' ']
            + interface + seq![' '] + "-j"@ + seq![' '] + "ACCEPT"@,
{
    let words = seq!["iptables"@, verb, "FORWARD"@, way, interface, "-j"@, "ACCEPT"@];
    assert(words.drop_last() =~= words.take(6));
    assert(words.take(6).drop_last() =~= words.take(5));
    assert(words.take(5).drop_last() =~= words.take(4));
    assert(words.take(4).drop_last() =~= words.take(3));
    assert(words.take(3).drop_last() =~= words.take(2));
    assert(words.take(2).drop_last() =~= words.take(1));
    assert(command(words.take(1)) == words[0]);
    assert(command(words.take(2)) =~= words[0] + seq![' '] + words[1]);
    assert(command(words.take(3)) =~= command(words.take(2)) + seq![' '] + words[2]);
    assert(command(words.take(4)) =~= command(words.take(3)) + seq![' '] + words[3]);
    assert(command(words.take(5)) =~= command(words.take(4)) + seq![' '] + words[4]);
    assert(command(words.take(6)) =~= command(words.take(5)) + seq![' '] + words[5]);
    assert(command(words) =~= command(words.take(6)) + seq![' '] + words[6]);
}

/// A command, word by word.
proof fn lemma_masquerade(verb: Seq<char>, wan: Seq<char>)
    ensures
        command(
            seq![
                "iptables"@,
                "-t"@,
                "nat"@,
                verb,
                "POSTROUTING"@,
                "-o"@,
                wan,
                "-j"@,
                "MASQUERADE"@,
            ],
        ) == "iptables"@ + seq![' '] + "-t"@ + seq![' '] + "nat"@ + seq![' '] + verb + seq![' ']
            + "POSTROUTING"@ + seq![' '] + "-o"@ + seq![' '] + wan + seq![' '] + "-j"@ + seq![' ']
            + "MASQUERADE"@,
{
    let words = seq![
        "iptables"@,
        "-t"@,
        "nat"@,
        verb,
        "POSTROUTING"@,
        "-o"@,
        wan,
        "-j"@,
        "MASQUERADE"@,
    ];
    assert(words.drop_last() =~= words.take(8));
    assert(words.take(8).drop_last() =~= words.take(7));
    assert(words.take(7).drop_last() =~= words.take(6));
    assert(words.take(6).drop_last() =~= words.take(5));
    assert(words.take(5).drop_last() =~= words.take(4));
    assert(words.take(4).drop_last() =~= words.take(3));
    assert(words.take(3).drop_last() =~= words.take(2));
    assert(words.take(2).drop_last() =~= words.take(1));
    assert(command(words.take(1)) == words[0]);
    assert(command(words.take(2)) =~= words[0] + seq![' '] + words[1]);
    assert(command(words.take(3)) =~= command(words.take(2)) + seq![' '] + words[2]);
    assert(command(words.take(4)) =~= command(words.take(3)) + seq![' '] + words[3]);
    assert(command(words.take(5)) =~= command(words.take(4)) + seq![' '] + words[4]);
    assert(command(words.take(6)) =~= command(words.take(5)) + seq![' '] + words[5]);
    assert(command(words.take(7)) =~= command(words.take(6)) + seq![' '] + words[6]);
    assert(command(words.take(8)) =~= command(words.take(7)) + seq![' '] + words[7]);
    assert(command(words) =~= command(words.take(8)) + seq![' '] + words[8]);
}

/// The fixed words of the commands, between what changes.
proof fn lemma_nat_words(verb: Seq<char>)
    requires
        verb == "-A"@ || verb == "-D"@,
    ensures
        "iptables"@ + seq![' '] + verb + seq![' '] + "FORWARD"@ + seq![' '] + "-i"@ + seq![' '] == (
        if verb == "-A"@ {
            "iptables -A FORWARD -i "@
        } else {
            "iptables -D FORWARD -i "@
        }),
        seq![' '] + "-j"@ + seq![' '] + "ACCEPT"@ + "; "@ + ("iptables"@ + seq![' '] + verb + seq![
            ' ',
        ] + "FORWARD"@ + seq![' '] + "-o"@ + seq![' ']) == (if verb == "-A"@ {
            " -j ACCEPT; iptables -A FORWARD -o "@
        } else {
            " -j ACCEPT; iptables -D FORWARD -o "@
        }),
        seq![' '] + "-j"@ + seq![' '] + "ACCEPT"@ + "; "@ + ("iptables"@ + seq![' '] + "-t"@ + seq![
            ' ',
        ] + "nat"@ + seq![' '] + verb + seq![' '] + "POSTROUTING"@ + seq![' '] + "-o"@ + seq![' '])
            == (if verb == "-A"@ {
            " -j ACCEPT; iptables -t nat -A POSTROUTING -o "@
        } else {
            " -j ACCEPT; iptables -t nat -D POSTROUTING -o "@
        }),
        seq![' '] + "-j"@ + seq![' '] + "MASQUERADE"@ == " -j MASQUERADE"@,
{
    reveal_strlit("-A");
    reveal_strlit("-D");
    reveal_strlit("iptables");
    reveal_strlit("FORWARD");
    reveal_strlit("-i");
    reveal_strlit("-o");
    reveal_strlit("-j");
    reveal_strlit("-t");
    reveal_strlit("nat");
    reveal_strlit("ACCEPT");
    reveal_strlit("; ");
    reveal_strlit("POSTROUTING");
    reveal_strlit("MASQUERADE");
    reveal_strlit("iptables -A FORWARD -i ");
    reveal_strlit(" -j ACCEPT; iptables -A FORWARD -o ");
    reveal_strlit(" -j ACCEPT; iptables -t nat -A POSTROUTING -o ");
    reveal_strlit("iptables -D FORWARD -i ");
    reveal_strlit(" -j ACCEPT; iptables -D FORWARD -o ");
    reveal_strlit(" -j ACCEPT; iptables -t nat -D POSTROUTING -o ");
    reveal_strlit(" -j MASQUERADE");
    assert("-A"@[1] == 'A' && "-D"@[1] == 'D');
}

/// Three commands put together in one order or the other are the same.
proof fn lemma_three_commands(
    a: Seq<char>,
    interface: Seq<char>,
    b: Seq<char>,
    c: Seq<char>,
    d: Seq<char>,
    e: Seq<char>,
    wan: Seq<char>,
    f: Seq<char>,
)
    ensures
        (a + interface + b) + (c + interface + d) + (e + wan + f) == a + interface + (b + c)
            + interface + (d + e) + wan + f,
{
    assert((a + interface + b) + (c + interface + d) + (e + wan + f) =~= a + interface + (b + c)
        + interface + (d + e) + wan + f);
}

/// The commands that start the NAT add three rules, and those that end it take
/// the same three away.
pub proof fn law_nat_rules(interface: Seq<char>, wan: Seq<char>)
    ensures
        nat_up_text(interface, wan) == nat_commands("-A"@, interface, wan)[0] + "; "@
            + nat_commands("-A"@, interface, wan)[1] + "; "@ + nat_commands(
            "-A"@,
            interface,
            wan,
        )[2],
        nat_down_text(interface, wan) == nat_commands("-D"@, interface, wan)[0] + "; "@
            + nat_commands("-D"@, interface, wan)[1] + "; "@ + nat_commands(
            "-D"@,
            interface,
            wan,
        )[2],
{
    assert("-A"@ != "-D"@) by {
        reveal_strlit("-A");
        reveal_strlit("-D");
        assert("-A"@[1] == 'A' && "-D"@[1] == 'D');
    }
    lemma_nat_rule("-A"@, interface, wan);
    lemma_nat_rule("-D"@, interface, wan);
}

/// The commands with one verb.
proof fn lemma_nat_rule(verb: Seq<char>, interface: Seq<char>, wan: Seq<char>)
    requires
        verb == "-A"@ || verb == "-D"@,
    ensures
        nat_commands(verb, interface, wan)[0] + "; "@ + nat_commands(verb, interface, wan)[1]
            + "; "@ + nat_commands(verb, interface, wan)[2] == (if verb == "-A"@ {
            nat_up_text(interface, wan)
        } else {
            nat_down_text(interface, wan)
        }),
{
    lemma_forward(verb, "-i"@, interface);
    lemma_forward(verb, "-o"@, interface);
    lemma_masquerade(verb, wan);
    lemma_nat_words(verb);
    let a = "iptables"@ + seq![' '] + verb + seq![' '] + "FORWARD"@ + seq![' '] + "-i"@ + seq![' '];
    let b = seq![' '] + "-j"@ + seq![' '] + "ACCEPT"@ + "; "@;
    let c = "iptables"@ + seq![' '] + verb + seq![' '] + "FORWARD"@ + seq![' '] + "-o"@ + seq![' '];
    let e = "iptables"@ + seq![' '] + "-t"@ + seq![' '] + "nat"@ + seq![' '] + verb + seq![' ']
        + "POSTROUTING"@ + seq![' '] + "-o"@ + seq![' '];
    let f = seq![' '] + "-j"@ + seq![' '] + "MASQUERADE"@;
    let commands = nat_commands(verb, interface, wan);
    assert(commands[0] + "; "@ =~= a + interface + b);
    assert(commands[1] + "; "@ =~= c + interface + b);
    assert(commands[2] =~= e + wan + f);
    assert(commands[0] + "; "@ + commands[1] + "; "@ + commands[2] =~= (a + interface + b) + (c
        + interface + b) + (e + wan + f));
    lemma_three_commands(a, interface, b, c, b, e, wan, f);
}

/// The parts of both commands hold no end of a line.
proof fn lemma_nat_lines(interface: Seq<char>, wan: Seq<char>)
    requires
        !interface.contains('\n'),
        !wan.contains('\n'),
    ensures
        !nat_up_text(interface, wan).contains('\n'),
        !nat_down_text(interface, wan).contains('\n'),
{
    reveal_strlit("iptables -A FORWARD -i ");
    reveal_strlit(" -j ACCEPT; iptables -A FORWARD -o ");
    reveal_strlit(" -j ACCEPT; iptables -t nat -A POSTROUTING -o ");
    reveal_strlit("iptables -D FORWARD -i ");
    reveal_strlit(" -j ACCEPT; iptables -D FORWARD -o ");
    reveal_strlit(" -j ACCEPT; iptables -t nat -D POSTROUTING -o ");
    reveal_strlit(" -j MASQUERADE");
    lemma_commands_line(
        "iptables -A FORWARD -i "@,
        interface,
        " -j ACCEPT; iptables -A FORWARD -o "@,
        " -j ACCEPT; iptables -t nat -A POSTROUTING -o "@,
        wan,
        " -j MASQUERADE"@,
    );
    lemma_commands_line(
        "iptables -D FORWARD -i "@,
        interface,
        " -j ACCEPT; iptables -D FORWARD -o "@,
        " -j ACCEPT; iptables -t nat -D POSTROUTING -o "@,
        wan,
        " -j MASQUERADE"@,
    );
}

/// Texts on one line make one line.
proof fn lemma_two_lines(a: Seq<char>, b: Seq<char>)
    requires
        !a.contains('\n'),
        !b.contains('\n'),
    ensures
        !(a + b).contains('\n'),
{
    if (a + b).contains('\n') {
        let i = choose|i: int| 0 <= i < (a + b).len() && (a + b)[i] == '\n';
        if i < a.len() {
            assert(a[i] == '\n');
        } else {
            assert(b[i - a.len()] == '\n');
        }
    }
}

/// Commands on one line.
proof fn lemma_commands_line(
    a: Seq<char>,
    interface: Seq<char>,
    b: Seq<char>,
    c: Seq<char>,
    wan: Seq<char>,
    d: Seq<char>,
)
    requires
        !a.contains('\n'),
        !interface.contains('\n'),
        !b.contains('\n'),
        !c.contains('\n'),
        !wan.contains('\n'),
        !d.contains('\n'),
    ensures
        !(a + interface + b + interface + c + wan + d).contains('\n'),
{
    lemma_two_lines(a, interface);
    lemma_two_lines(a + interface, b);
    lemma_two_lines(a + interface + b, interface);
    lemma_two_lines(a + interface + b + interface, c);
    lemma_two_lines(a + interface + b + interface + c, wan);
    lemma_two_lines(a + interface + b + interface + c + wan, d);
}

/// The settings below the private key are read before what follows them.
proof fn lemma_read_tail(
    so_far: Reading,
    section: Section,
    dns: Option<Seq<char>>,
    mtu: Option<Seq<char>>,
    up: Option<Seq<char>>,
    down: Option<Seq<char>>,
    rest: Seq<char>,
)
    requires
        dns matches Some(v) ==> !v.contains('\n'),
        mtu matches Some(v) ==> !v.contains('\n'),
        up matches Some(v) ==> !v.contains('\n'),
        down matches Some(v) ==> !v.contains('\n'),
    ensures
        read_text(
            with_section(so_far, section),
            optional_line("DNS = "@, dns) + (optional_line("MTU = "@, mtu) + (optional_line(
                "PostUp = "@,
                up,
            ) + (optional_line("PostDown = "@, down) + rest))),
        ) == read_text(
            with_section(
                so_far,
                Section {
                    settings: tail_settings(section.settings, dns, mtu, up, down),
                    ..section
                },
            ),
            rest,
        ),
{
    lemma_interface_labels();
    let served = Section { settings: and_setting(section.settings, "DNS"@, dns), ..section };
    let sized = Section { settings: and_setting(served.settings, "MTU"@, mtu), ..section };
    let upped = Section { settings: and_setting(sized.settings, "PostUp"@, up), ..section };
    let from_down = optional_line("PostDown = "@, down) + rest;
    let from_up = optional_line("PostUp = "@, up) + from_down;
    let from_mtu = optional_line("MTU = "@, mtu) + from_up;
    lemma_read_part(so_far, section, "DNS = "@, "DNS"@, dns, from_mtu);
    lemma_read_part(so_far, served, "MTU = "@, "MTU"@, mtu, from_up);
    lemma_read_part(so_far, sized, "PostUp = "@, "PostUp"@, up, from_down);
    lemma_read_part(so_far, upped, "PostDown = "@, "PostDown"@, down, rest);
}

/// The settings below the private key, part by part.
proof fn lemma_tail_parts(cfg: ServerConfig, rest: Seq<char>)
    ensures
        tail_text(cfg) + rest == optional_line("DNS = "@, dns_of(cfg)) + (optional_line(
            "MTU = "@,
            written_number(mtu_of(cfg)),
        ) + (optional_line("PostUp = "@, up_of(cfg)) + (optional_line("PostDown = "@, down_of(cfg))
            + rest))),
{
    let dns = optional_line("DNS = "@, dns_of(cfg));
    let mtu = optional_line("MTU = "@, written_number(mtu_of(cfg)));
    let up = optional_line("PostUp = "@, up_of(cfg));
    let down = optional_line("PostDown = "@, down_of(cfg));
    assert(tail_text(cfg) =~= dns + mtu + (up + down));
    assert(dns + mtu + (up + down) + rest =~= dns + (mtu + (up + (down + rest))));
}

/// What stands above the private key, and the key, are read before what
/// follows them.
proof fn lemma_read_head(cfg: ServerConfig, key: Seq<char>, rest: Seq<char>) -> (remark: Option<
    Seq<char>,
>)
    requires
        !cfg.address@.contains('\n'),
        !key.contains('\n'),
    ensures
        read_text(
            Reading { sections: Seq::empty(), remark: None },
            head_text(cfg) + line("PrivateKey = "@, key) + rest,
        ) == read_text(
            with_section(
                Reading { sections: Seq::empty(), remark: None },
                Section { remark, title: "Interface"@, settings: head_settings(cfg, key) },
            ),
            rest,
        ),
{
    let comment = "# Généré par perses-mother — ne pas éditer à la main."@;
    reveal_strlit("# Généré par perses-mother — ne pas éditer à la main.");
    reveal_strlit("[Interface]");
    reveal_strlit("Interface");
    let nothing = Reading { sections: Seq::empty(), remark: None };
    let none = Seq::<char>::empty();
    let address = Some(cfg.address@);
    let port = Some(text::decimal(cfg.listen_port as nat));
    lemma_number_line(cfg.listen_port as nat);
    let from_key = optional_line("PrivateKey = "@, Some(key)) + rest;
    let from_port = optional_line("ListenPort = "@, port) + from_key;
    let from_address = optional_line("Address = "@, address) + from_port;
    let from_title = line("[Interface]"@, none) + from_address;
    assert(comment + none =~= comment);
    let a = comment.push('\n');
    let b = line("[Interface]"@, none);
    let c = optional_line("Address = "@, address);
    let d = optional_line("ListenPort = "@, port);
    let e = optional_line("PrivateKey = "@, Some(key));
    assert(a + b + c + d + e + rest =~= a + (b + (c + (d + (e + rest)))));
    assert(head_text(cfg) + line("PrivateKey = "@, key) + rest == a + from_title);
    assert(!comment.contains('\n'));
    lemma_read_row(nothing, comment, from_title);
    let remarked = Reading { sections: Seq::empty(), remark: Some(comment.skip(2)) };
    assert("[Interface]"@ =~= seq!['['] + "Interface"@ + seq![']']);
    assert(!"[Interface]"@.contains('\n'));
    lemma_read_title(remarked, "[Interface]"@, "Interface"@, from_address);
    lemma_interface_labels();
    let titled = Section {
        remark: remarked.remark,
        title: "Interface"@,
        settings: Seq::empty(),
    };
    let addressed = Section {
        settings: and_setting(titled.settings, "Address"@, address),
        ..titled
    };
    let ported = Section {
        settings: and_setting(addressed.settings, "ListenPort"@, port),
        ..titled
    };
    assert(with_section(remarked, titled) == with_section(nothing, titled));
    lemma_read_part(nothing, titled, "Address = "@, "Address"@, address, from_port);
    lemma_read_part(nothing, addressed, "ListenPort = "@, "ListenPort"@, port, from_key);
    lemma_read_part(nothing, ported, "PrivateKey = "@, "PrivateKey"@, Some(key), rest);
    remarked.remark
}

/// Nothing more is read of a text that ended.
proof fn lemma_read_end(so_far: Reading)
    ensures
        read_text(so_far, Seq::empty()).sections == so_far.sections,
{
    reveal(read_text);
    let none = Seq::<char>::empty();
    assert(text::pieces(none, '\n') =~= seq![none]);
    assert(seq![none].skip(1) =~= Seq::empty());
    assert(read_lines(read_line(so_far, none), seq![none].skip(1)) == read_line(so_far, none));
}

/// A configuration that is accepted has addresses for each peer.
proof fn lemma_peers_have_addresses(peers: Seq<Peer>)
    requires
        peers_fault(peers) is None,
    ensures
        forall|i: int| 0 <= i < peers.len() ==> (#[trigger] peers[i]).allowed_ips@.len() > 0,
    decreases peers.len(),
{
    if peers.len() > 0 {
        lemma_peers_have_addresses(peers.drop_last());
        assert forall|i: int| 0 <= i < peers.len() implies (#[trigger] peers[i]).allowed_ips@.len()
            > 0 by {
            if i < peers.len() - 1 {
                assert(peers.drop_last()[i] == peers[i]);
            }
        }
    }
}

/// A rendered file read back gives the configuration that it was rendered
/// from: the interface with its address, port, key, DNS servers, MTU and
/// rules, and behind it a section for each peer, in order, with its name,
/// keys, addresses and keepalive. Nothing else is in it.
pub proof fn law_rendered_file_reads_back(
    cfg: ServerConfig,
    key: Seq<char>,
    rendered: Result<String, WgError>,
)
    requires
        renders(rendered, cfg, key),
        rendered is Ok,
        is_one_line_config(cfg),
        !key.contains('\n'),
    ensures
        rendered matches Ok(file) && {
            let sections = sections_of(file@);
            &&& sections.len() == 1 + cfg.peers@.len()
            &&& says_interface(sections[0], cfg, key)
            &&& forall|i: int|
                0 <= i < cfg.peers@.len() ==> says_peer(
                    #[trigger] sections[i + 1],
                    cfg.peers@[i],
                )
        },
{
    let peers = cfg.peers@;
    let nothing = Reading { sections: Seq::empty(), remark: None };
    let dns = dns_of(cfg);
    let mtu = written_number(mtu_of(cfg));
    if let Some(n) = mtu_of(cfg) {
        lemma_number_line(n);
    }
    if cfg.dns@.len() > 0 {
        law_list_reads_back(text::string_views(cfg.dns@));
    }
    if let Some(wan) = cfg.wan_interface {
        assert(!cfg.interface@.contains('\n')) by {
            if cfg.interface@.contains('\n') {
                let i = choose|i: int|
                    0 <= i < cfg.interface@.len() && cfg.interface@[i] == '\n';
                assert(is_interface_char(cfg.interface@[i]));
            }
        }
        lemma_nat_lines(cfg.interface@, wan@);
    }
    lemma_peers_have_addresses(peers);
    let none = Seq::<char>::empty();
    let from_tail = tail_text(cfg) + peers_text(peers);
    let remark = lemma_read_head(cfg, key, from_tail);
    let headed = Section { remark, title: "Interface"@, settings: head_settings(cfg, key) };
    lemma_tail_parts(cfg, peers_text(peers));
    lemma_read_tail(nothing, headed, dns, mtu, up_of(cfg), down_of(cfg), peers_text(peers));
    let whole = interface_section(cfg, key, remark);
    let reading = with_section(nothing, whole);
    assert(config_text(cfg, key) =~= head_text(cfg) + line("PrivateKey = "@, key) + from_tail);
    assert(read_text(nothing, config_text(cfg, key)) == read_text(reading, peers_text(peers)));
    let all = seq![whole] + peer_sections(peers);
    assert(read_text(reading, peers_text(peers)).sections == all) by {
        assert(peers_text(peers) + none =~= peers_text(peers));
        if peers.len() == 0 {
            assert(peers_text(peers) =~= none);
            lemma_read_end(reading);
            assert(reading.sections =~= all);
        } else {
            lemma_read_peers(reading, peers, none);
            let last = Reading {
                sections: reading.sections + peer_sections(peers),
                remark: None,
            };
            lemma_read_end(last);
            assert(last.sections =~= all);
        }
    }
    assert(sections_of(config_text(cfg, key)) == all);
    lemma_interface_section(cfg, key, remark);
    assert forall|i: int| 0 <= i < peers.len() implies says_peer(#[trigger] all[i + 1], peers[i]) by {
        assert(all[i + 1] == peer_section(peers[i]));
        assert(is_one_line_peer(peers[i]));
        lemma_peer_section(peers[i]);
    }
}

/// The characters that the name of an interface may hold.
pub open spec fn interface_alphabet() -> Seq<char> {
    "ABCDEFGHIJKLMNOPQRSTUVWXYZabcdefghijklmnopqrstuvwxyz0123456789-_."@
}

/// A character is one of the alphabet.
proof fn lemma_interface_char(c: char)
    ensures
        is_interface_char(c) <==> interface_alphabet().contains(c),
{
    reveal_strlit("ABCDEFGHIJKLMNOPQRSTUVWXYZabcdefghijklmnopqrstuvwxyz0123456789-_.");
    let all = interface_alphabet();
    let n = c as int;
    assert forall|k: int| 0 <= k < 26 implies #[trigger] all[k] as int == 65 + k by {}
    assert forall|k: int| 26 <= k < 52 implies #[trigger] all[k] as int == 97 + k - 26 by {}
    assert forall|k: int| 52 <= k < 62 implies #[trigger] all[k] as int == 48 + k - 52 by {}
    assert(all[62] == '-' && all[63] == '_' && all[64] == '.');
    assert(all.len() == 65);
    if 'A' <= c <= 'Z' {
        assert(all[n - 65] == c);
    } else if 'a' <= c <= 'z' {
        assert(all[26 + n - 97] == c);
    } else if '0' <= c <= '9' {
        assert(all[52 + n - 48] == c);
    }
    if all.contains(c) {
        let k = choose|k: int| 0 <= k < all.len() && all[k] == c;
        assert(k < 26 || 26 <= k < 52 || 52 <= k < 62 || k >= 62);
    }
}

/// A list of peers is accepted where each of them is.
proof fn lemma_all_peers_accepted(peers: Seq<Peer>)
    ensures
        peers_fault(peers) is None <==> forall|i: int|
            0 <= i < peers.len() ==> peer_fault(#[trigger] peers[i]) is None,
    decreases peers.len(),
{
    if peers.len() > 0 {
        let before = peers.drop_last();
        lemma_all_peers_accepted(before);
        assert forall|i: int| 0 <= i < before.len() implies #[trigger] before[i] == peers[i] by {}
        assert(peers.last() == peers[peers.len() - 1]);
        if peers_fault(peers) is None {
            assert forall|i: int| 0 <= i < peers.len() implies peer_fault(
                #[trigger] peers[i],
            ) is None by {
                if i < before.len() {
                    assert(peer_fault(before[i]) is None);
                }
            }
        }
        if forall|i: int| 0 <= i < peers.len() ==> peer_fault(#[trigger] peers[i]) is None {
            assert forall|i: int| 0 <= i < before.len() implies peer_fault(
                #[trigger] before[i],
            ) is None by {
                assert(peer_fault(peers[i]) is None);
            }
        }
    }
}

/// A configuration makes sense exactly where its interface has a name of the
/// alphabet, its address a prefix, its port a number above zero, and each peer
/// its keys and an address.
pub proof fn law_sensible_configs_are_accepted(cfg: ServerConfig)
    ensures
        config_fault(cfg) is None <==> {
            &&& cfg.interface@.len() > 0
            &&& forall|i: int|
                0 <= i < cfg.interface@.len() ==> interface_alphabet().contains(
                    #[trigger] cfg.interface@[i],
                )
            &&& exists|i: int| 0 <= i < cfg.address@.len() && cfg.address@[i] == '/'
            &&& cfg.listen_port > 0
            &&& forall|i: int|
                0 <= i < cfg.peers@.len() ==> {
                    let peer = #[trigger] cfg.peers@[i];
                    &&& keys::key_of(peer.public_key@) is Ok
                    &&& peer.preshared_key matches Some(psk) ==> keys::key_of(psk@) is Ok
                    &&& peer.allowed_ips@.len() > 0
                }
        },
{
    let name = cfg.interface@;
    assert forall|i: int| 0 <= i < name.len() implies is_interface_char(#[trigger] name[i])
        == interface_alphabet().contains(name[i]) by {
        lemma_interface_char(name[i]);
    }
    lemma_all_peers_accepted(cfg.peers@);
    assert forall|i: int| 0 <= i < cfg.peers@.len() implies (peer_fault(
        #[trigger] cfg.peers@[i],
    ) is None <==> {
        let peer = cfg.peers@[i];
        &&& keys::key_of(peer.public_key@) is Ok
        &&& peer.preshared_key matches Some(psk) ==> keys::key_of(psk@) is Ok
        &&& peer.allowed_ips@.len() > 0
    }) by {}
    if is_interface(name) {
        assert forall|i: int| 0 <= i < name.len() implies interface_alphabet().contains(
            #[trigger] name[i],
        ) by {
            assert(is_interface_char(name[i]));
        }
    }
}

/// The first peer that makes no sense is the one that is told of.
pub proof fn law_first_wrong_peer_is_told(peers: Seq<Peer>, i: int)
    requires
        0 <= i < peers.len(),
        peer_fault(peers[i]) is Some,
        forall|j: int| 0 <= j < i ==> peer_fault(#[trigger] peers[j]) is None,
    ensures
        peers_fault(peers) == peer_fault(peers[i]),
{
    let upto = peers.take(i + 1);
    let before = peers.take(i);
    assert(upto.drop_last() =~= before);
    assert forall|j: int| 0 <= j < before.len() implies peer_fault(#[trigger] before[j]) is None by {
        assert(before[j] == peers[j]);
    }
    lemma_all_peers_accepted(before);
    lemma_peers_fault(peers, i + 1);
}

/// A line that sets the private key is read whatever the case of its label, and
/// with any white space around the label and the key.
pub proof fn law_key_line_is_read(
    a: Seq<char>,
    label: Seq<char>,
    b: Seq<char>,
    c: Seq<char>,
    key: Seq<char>,
    d: Seq<char>,
)
    requires
        text::all_spaces(a),
        text::all_spaces(b),
        text::all_spaces(c),
        text::all_spaces(d),
        text::lowered(label) == "privatekey"@,
        text::is_tight(key),
    ensures
        line_key((a + label + b).push('=') + (c + key + d)) == Some(key),
{
    reveal_strlit("privatekey");
    reveal_strlit("PrivateKey");
    let head = a + label + b;
    let tail = c + key + d;
    assert(text::lowered("PrivateKey"@) =~= "privatekey"@);
    assert(label.len() == text::lowered(label).len());
    assert forall|i: int| 0 <= i < label.len() implies label[i] != '=' && !text::is_space(
        label[i],
    ) by {
        assert(text::lowered(label)[i] == "privatekey"@[i]);
        assert('a' <= "privatekey"@[i] <= 'z');
    }
    assert(!head.contains('=')) by {
        if head.contains('=') {
            let i = choose|i: int| 0 <= i < head.len() && head[i] == '=';
            if i < a.len() {
                assert(text::is_space(a[i]));
            } else if i < a.len() + label.len() {
                assert(label[i - a.len()] != '=');
            } else {
                assert(text::is_space(b[i - a.len() - label.len()]));
            }
        }
    }
    text::lemma_position_behind(head, '=', tail);
    let s = head.push('=') + tail;
    assert(s.take(head.len() as int) =~= head);
    assert(s.skip(head.len() as int + 1) =~= tail);
    text::law_only_space_is_trimmed(a, label, b);
    text::law_only_space_is_trimmed(c, key, d);
}

/// A line with another label sets no key, nor does one without an equals sign.
pub proof fn law_other_lines_set_no_key(
    a: Seq<char>,
    label: Seq<char>,
    b: Seq<char>,
    rest: Seq<char>,
    plain: Seq<char>,
)
    requires
        text::all_spaces(a),
        text::all_spaces(b),
        text::is_tight(label),
        !label.contains('='),
        text::lowered(label) != "privatekey"@,
        !plain.contains('='),
    ensures
        line_key((a + label + b).push('=') + rest) is None,
        line_key(plain) is None,
{
    reveal_strlit("privatekey");
    reveal_strlit("PrivateKey");
    let head = a + label + b;
    assert(text::lowered("PrivateKey"@) =~= "privatekey"@);
    assert(!head.contains('=')) by {
        if head.contains('=') {
            let i = choose|i: int| 0 <= i < head.len() && head[i] == '=';
            if i < a.len() {
                assert(text::is_space(a[i]));
            } else if i < a.len() + label.len() {
                assert(label[i - a.len()] == '=');
            } else {
                assert(text::is_space(b[i - a.len() - label.len()]));
            }
        }
    }
    text::lemma_position_behind(head, '=', rest);
    let s = head.push('=') + rest;
    assert(s.take(head.len() as int) =~= head);
    text::law_only_space_is_trimmed(a, label, b);
    text::lemma_position(plain, '=');
}

/// The first line that sets a key counts, and a line that sets none changes
/// nothing.
pub proof fn law_first_key_counts(first: Seq<char>, rest: Seq<char>)
    requires
        !first.contains('\n'),
        first.len() == 0 || first.last() != '\r',
    ensures
        line_key(first) is Some ==> file_key(first.push('\n') + rest) == line_key(first),
        line_key(first) is None ==> file_key(first.push('\n') + rest) == file_key(rest),
        file_key(Seq::empty()) is None,
{
    lemma_file_key_line(first);
    lemma_file_key_join(first, rest);
    let none = Seq::<char>::empty();
    assert(text::pieces(none, '\n') =~= seq![none]);
    assert(text::lines(none) =~= Seq::empty());
}

/// The last piece of two texts with a separator between them is that of the
/// second.
proof fn lemma_last_piece(dir: Seq<char>, file: Seq<char>)
    requires
        !file.contains('/'),
    ensures
        text::pieces(joined_path(dir, file), '/').len() > 0,
        text::pieces(joined_path(dir, file), '/').last() == file,
{
    text::lemma_pieces_one(file, '/');
    assert(!(file.len() > 0 && file[0] == '/')) by {
        if file.len() > 0 && file[0] == '/' {
            assert(file.contains('/'));
        }
    }
    if dir.len() == 0 {
        assert(dir + file =~= file);
    } else if dir.last() == '/' {
        text::lemma_pieces_join(dir.drop_last(), '/', file);
        assert(dir.drop_last().push('/') =~= dir);
    } else {
        text::lemma_pieces_join(dir, '/', file);
    }
}

/// A dot that only digits and letters follow is the last.
proof fn lemma_last_dot(head: Seq<char>, tail: Seq<char>)
    requires
        !tail.contains('.'),
    ensures
        last_dot(head.push('.') + tail) == head.len(),
    decreases tail.len(),
{
    let s = head.push('.') + tail;
    if tail.len() == 0 {
        assert(s.last() == '.');
    } else {
        let fewer = tail.drop_last();
        assert(!fewer.contains('.')) by {
            if fewer.contains('.') {
                let i = choose|i: int| 0 <= i < fewer.len() && fewer[i] == '.';
                assert(tail[i] == '.');
            }
        }
        lemma_last_dot(head, fewer);
        assert(tail.contains(tail.last()));
        assert(s.last() == tail.last());
        assert(s.drop_last() =~= head.push('.') + fewer);
    }
}

/// A text without a dot has none.
proof fn lemma_without_dot(s: Seq<char>)
    requires
        !s.contains('.'),
    ensures
        last_dot(s) == -1,
    decreases s.len(),
{
    if s.len() > 0 {
        let fewer = s.drop_last();
        assert(!fewer.contains('.')) by {
            if fewer.contains('.') {
                let i = choose|i: int| 0 <= i < fewer.len() && fewer[i] == '.';
                assert(s[i] == '.');
            }
        }
        lemma_without_dot(fewer);
        assert(s.contains(s.last()));
    }
}

/// An extension is what follows the last dot of a name, and it is left out; a
/// name without a dot, or with one at its start only, has none.
pub proof fn law_extension_is_left_out(name: Seq<char>, extension: Seq<char>)
    requires
        !extension.contains('.'),
    ensures
        name.len() > 0 ==> stem(name.push('.') + extension) == name,
        stem(extension) == extension,
        stem(seq!['.'] + extension) == seq!['.'] + extension,
{
    lemma_last_dot(name, extension);
    assert((name.push('.') + extension).take(name.len() as int) =~= name);
    lemma_without_dot(extension);
    let none = Seq::<char>::empty();
    lemma_last_dot(none, extension);
    assert(none.push('.') + extension =~= seq!['.'] + extension);
}

/// A file stands in its directory, behind one slash: where the directory ends
/// with one none is added, and a whole path stands for itself.
pub proof fn law_file_stands_in_its_directory(dir: Seq<char>, file: Seq<char>)
    requires
        !file.contains('/'),
    ensures
        dir.len() > 0 && dir.last() != '/' ==> text::pieces(joined_path(dir, file), '/')
            == text::pieces(dir, '/').push(file),
        joined_path(dir.push('/'), file) == dir.push('/') + file,
        joined_path(Seq::empty(), file) == file,
        joined_path(dir, seq!['/'] + file) == seq!['/'] + file,
{
    text::lemma_pieces_one(file, '/');
    assert(!(file.len() > 0 && file[0] == '/')) by {
        if file.len() > 0 && file[0] == '/' {
            assert(file.contains('/'));
        }
    }
    assert(Seq::empty() + file =~= file);
    if dir.len() > 0 && dir.last() != '/' {
        text::lemma_pieces_join(dir, '/', file);
        assert(text::pieces(joined_path(dir, file), '/') =~= text::pieces(dir, '/').push(file));
    }
}

/// The path of a configuration names its interface: it is read back of that,
/// whatever the directory.
pub proof fn law_config_path_names_the_interface(dir: Seq<char>, interface: Seq<char>)
    requires
        is_interface(interface),
    ensures
        path_interface(joined_path(dir, interface + ".conf"@)) == Some(interface),
{
    reveal_strlit(".conf");
    let file = interface + ".conf"@;
    let extension = seq!['c', 'o', 'n', 'f'];
    assert(file =~= interface.push('.') + extension);
    assert(!file.contains('/')) by {
        if file.contains('/') {
            let i = choose|i: int| 0 <= i < file.len() && file[i] == '/';
            if i < interface.len() {
                assert(is_interface_char(interface[i]));
            }
        }
    }
    lemma_last_piece(dir, file);
    law_extension_is_left_out(interface, extension);
    let segments = text::pieces(joined_path(dir, file), '/');
    assert(file.len() > 2);
    assert(named_segments(segments) == segments);
}

/// A slash at the end of a path, or one before a dot, changes nothing of what
/// it is named after; a path that goes up names nothing.
pub proof fn law_path_end_does_not_count(path: Seq<char>)
    ensures
        path_interface(path.push('/')) == path_interface(path),
        path_interface(path.push('/').push('.')) == path_interface(path),
        path_interface(path.push('/').push('.').push('.')) is None,
        path_interface(Seq::empty()) is None,
{
    let none = Seq::<char>::empty();
    let dot = seq!['.'];
    let up = seq!['.', '.'];
    text::lemma_pieces_join(path, '/', none);
    text::lemma_pieces_join(path, '/', dot);
    text::lemma_pieces_join(path, '/', up);
    text::lemma_pieces_one(none, '/');
    text::lemma_pieces_one(dot, '/');
    text::lemma_pieces_one(up, '/');
    assert(path.push('/') + none =~= path.push('/'));
    assert(path.push('/') + dot =~= path.push('/').push('.'));
    assert(path.push('/') + up =~= path.push('/').push('.').push('.'));
    let segments = text::pieces(path, '/');
    assert((segments + seq![none]).drop_last() =~= segments);
    assert((segments + seq![dot]).drop_last() =~= segments);
    assert((segments + seq![none]).last() == none);
    assert((segments + seq![dot]).last() == dot);
    assert((segments + seq![up]).last() == up);
    assert(up != dot);
    assert(seq![none].drop_last() =~= Seq::empty());
    assert(named_segments(seq![none]) == named_segments(seq![none].drop_last()));
}

/// A file named after an interface is the last piece of its path.
pub proof fn lemma_interface_file(dir: Seq<char>, interface: Seq<char>, extension: Seq<char>)
    requires
        is_interface(interface),
        !extension.contains('/'),
    ensures
        text::pieces(joined_path(dir, interface + extension), '/').last() == interface + extension,
{
    let file = interface + extension;
    assert(!file.contains('/')) by {
        if file.contains('/') {
            let i = choose|i: int| 0 <= i < file.len() && file[i] == '/';
            if i < interface.len() {
                assert(is_interface_char(interface[i]));
            } else {
                assert(extension[i - interface.len()] == '/');
            }
        }
    }
    lemma_last_piece(dir, file);
}

/// What is said of a wrong interface, a wrong address and a peer without one
/// names it.
pub proof fn law_messages_name_what_is_wrong(shown: Seq<char>, peer: Peer)
    ensures
        interface_fault(shown) matches Fault::Config(said) && text::occurs(shown, said),
        address_fault(shown) matches Fault::Config(said) && text::occurs(shown, said),
        keys::key_of(peer.public_key@) is Ok && peer.preshared_key is None
            && peer.allowed_ips@.len() == 0 ==> (peer_fault(peer) matches Some(
            Fault::Config(said),
        ) && text::occurs(peer.public_key@, said)),
{
    let none = Seq::<char>::empty();
    text::lemma_occurs("nom d'interface invalide: "@, shown, none);
    assert("nom d'interface invalide: "@ + shown + none =~= "nom d'interface invalide: "@ + shown);
    text::lemma_occurs(
        "l'adresse "@,
        shown,
        " doit être en notation CIDR (ex. 10.8.0.1/24)"@,
    );
    text::lemma_occurs("le pair "@, peer.public_key@, " n'a aucun AllowedIPs"@);
}

/// A wrong public key is told before a wrong pre-shared key, and that before
/// missing addresses.
pub proof fn law_keys_are_checked_first(peer: Peer)
    ensures
        keys::key_of(peer.public_key@) matches Err(fault) ==> peer_fault(peer) == Some(fault),
        keys::key_of(peer.public_key@) is Ok ==> (peer.preshared_key matches Some(psk) ==> (
        keys::key_of(psk@) matches Err(fault) ==> peer_fault(peer) == Some(fault))),
{
}

/// A check passes exactly where nothing is wrong, and otherwise tells what is:
/// of a key as a wrong key, of anything else as a wrong configuration.
pub proof fn law_check_tells_what_is_wrong(
    r: Result<(), WgError>,
    fault: Option<Fault>,
    said: Seq<char>,
)
    requires
        checked(r, fault),
    ensures
        r is Ok <==> fault is None,
        fault == Some(Fault::Key(said)) ==> (r matches Err(WgError::InvalidKey(told)) && told@
            == said),
        fault == Some(Fault::Config(said)) ==> (r matches Err(WgError::InvalidConfig(told))
            && told@ == said),
{
}

} // verus!
