//! The DNS relay as a module of the daemon.

use vstd::prelude::*;

use crate::env;
use crate::ip;
use crate::ip::{IpAddr, SocketAddr};
use crate::text;
use crate::wg;

use super::server::{
    DnsConfig, DEFAULT_QUEUE, DEFAULT_TIMEOUT, DEFAULT_UPSTREAM, DEFAULT_WORKERS, DNS_PORT,
};

verus! {

/// Serves the DNS of the clients of the tunnel, and denies the marked names.
#[derive(Debug)]
pub struct Resolver {
    /// The address to listen on, where it is imposed.
    pub bind: Option<String>,
    /// The WireGuard interface whose address is taken otherwise.
    pub interface: String,
    /// The upstream.
    pub upstream: String,
    /// How long the upstream may take, in nanoseconds.
    pub timeout: u128,
    /// How many relays run at a time.
    pub workers: usize,
    /// How many questions may wait for a relay.
    pub queue: usize,
}

/// The variables that the settings are read of, as the environment has them.
#[derive(Debug, Clone)]
pub struct ResolverVars {
    /// `PERSES_DNS_BIND`.
    pub bind: Option<String>,
    /// `PERSES_INTERFACE`.
    pub interface: Option<String>,
    /// `PERSES_DNS_UPSTREAM`.
    pub upstream: Option<String>,
    /// `PERSES_DNS_TIMEOUT`, in seconds.
    pub timeout: Option<String>,
    /// `PERSES_DNS_WORKERS`.
    pub workers: Option<String>,
    /// `PERSES_DNS_QUEUE`.
    pub queue: Option<String>,
}

/// The number above zero that a variable says, white space around it aside.
pub open spec fn positive(value: Option<Seq<char>>) -> Option<nat> {
    match env::filled(value) {
        Some(v) => match text::unsigned_value(text::trimmed(v), u64::MAX as nat) {
            Some(n) => if n > 0 {
                Some(n)
            } else {
                None
            },
            None => None,
        },
        None => None,
    }
}

/// Reads a number above zero.
///
/// What cannot be read is no reason not to start: the usual value stands for
/// it.
pub fn number(value: &Option<String>) -> (r: Option<u64>)
    ensures
        match r {
            Some(n) => positive(text::option_view(*value)) == Some(n as nat),
            None => positive(text::option_view(*value)) is None,
        },
{
    match env::read_filled(value) {
        Some(v) => {
            let chars = text::chars_of(v.as_str());
            match text::read_unsigned(text::trim(chars.as_slice()), u64::MAX) {
                Some(n) if n > 0 => Some(n),
                _ => None,
            }
        },
        None => None,
    }
}

/// The address that a text writes as `ip:port`, or as `ip`, which stands for
/// port 53.
pub open spec fn bind_value(s: Seq<char>) -> Option<SocketAddr> {
    match ip::socket_value(s) {
        Some(address) => Some(address),
        None => match ip::address_value(s) {
            Some(ip) => Some(SocketAddr { ip, scope_id: 0, port: DNS_PORT }),
            None => None,
        },
    }
}

/// What is said of an address that cannot be read.
pub open spec fn unreadable_address(s: Seq<char>) -> Seq<char> {
    "adresse illisible: "@ + s + " — attendu `10.8.0.1` ou `10.8.0.1:53`"@
}

/// A result is the address that a text writes.
pub open spec fn reads_bind(r: Result<SocketAddr, String>, s: Seq<char>) -> bool {
    match bind_value(s) {
        Some(address) => r == Ok::<SocketAddr, String>(address),
        None => r matches Err(said) && said@ == unreadable_address(s),
    }
}

/// Reads an address written `ip:port` or `ip`.
pub fn parse_bind(value: &str) -> (r: Result<SocketAddr, String>)
    ensures
        reads_bind(r, value@),
{
    let chars = text::chars_of(value);
    if let Some(address) = SocketAddr::parse(chars.as_slice()) {
        return Ok(address);
    }
    if let Some(ip) = IpAddr::parse(chars.as_slice()) {
        return Ok(SocketAddr::new(ip, DNS_PORT));
    }
    let mut said = text::copy("adresse illisible: ");
    said.append(value);
    said.append(" — attendu `10.8.0.1` ou `10.8.0.1:53`");
    Err(said)
}

/// What is known of the address of the tunnel.
#[derive(Debug)]
pub enum Tunnel {
    /// The interface is down.
    Down,
    /// The interface is this device, which has no address.
    Unaddressed(String),
    /// The interface has this address.
    At(IpAddr),
}

/// What is said of an interface that is down.
pub open spec fn down_text(interface: Seq<char>) -> Seq<char> {
    "interface "@ + interface + " arrêtée — la monter, ou imposer PERSES_DNS_BIND"@
}

/// What is said of a device without an address.
pub open spec fn unaddressed_text(device: Seq<char>) -> Seq<char> {
    "aucune adresse sur "@ + device + " — imposer PERSES_DNS_BIND (ex. 10.8.0.1:53)"@
}

/// The address to listen on: the one imposed, or that of the tunnel.
pub open spec fn listens_on(r: Result<SocketAddr, String>, resolver: Resolver, tunnel: Tunnel) -> bool {
    match resolver.bind {
        Some(bind) => reads_bind(r, bind@),
        None => match tunnel {
            Tunnel::Down => r matches Err(said) && said@ == down_text(resolver.interface@),
            Tunnel::Unaddressed(device) => r matches Err(said) && said@ == unaddressed_text(
                device@,
            ),
            Tunnel::At(ip) => r == Ok::<SocketAddr, String>(
                SocketAddr { ip, scope_id: 0, port: DNS_PORT },
            ),
        },
    }
}

/// The settings are what the variables say, and as usual where they say
/// nothing.
pub open spec fn reads_vars(r: Resolver, vars: ResolverVars) -> bool {
    &&& text::option_view(r.bind) == env::filled(text::option_view(vars.bind))
    &&& r.interface@ == env::or_usual(
        env::filled(text::option_view(vars.interface)),
        wg::DEFAULT_INTERFACE@,
    )
    &&& r.upstream@ == env::or_usual(
        env::filled(text::option_view(vars.upstream)),
        DEFAULT_UPSTREAM@,
    )
    &&& r.timeout == (match positive(text::option_view(vars.timeout)) {
        Some(seconds) => seconds * 1_000_000_000,
        None => DEFAULT_TIMEOUT as nat,
    })
    &&& r.workers == (match positive(text::option_view(vars.workers)) {
        Some(n) => n as usize,
        None => DEFAULT_WORKERS,
    })
    &&& r.queue == (match positive(text::option_view(vars.queue)) {
        Some(n) => n as usize,
        None => DEFAULT_QUEUE,
    })
}

impl Resolver {
    /// Reads the environment. Nothing is looked up and nothing is opened yet.
    pub fn from_env(vars: &ResolverVars) -> (r: Self)
        ensures
            reads_vars(r, *vars),
    {
        Resolver {
            bind: env::read_filled(&vars.bind),
            interface: env::or_else(env::read_filled(&vars.interface), wg::DEFAULT_INTERFACE),
            upstream: env::or_else(env::read_filled(&vars.upstream), DEFAULT_UPSTREAM),
            timeout: match number(&vars.timeout) {
                Some(seconds) => seconds as u128 * 1_000_000_000,
                None => DEFAULT_TIMEOUT,
            },
            workers: match number(&vars.workers) {
                Some(n) => n as usize,
                None => DEFAULT_WORKERS,
            },
            queue: match number(&vars.queue) {
                Some(n) => n as usize,
                None => DEFAULT_QUEUE,
            },
        }
    }

    /// The interface whose address has to be found, `None` where the address
    /// to listen on is imposed.
    pub fn asks_for(&self) -> (r: Option<String>)
        ensures
            text::option_view(r) == (if self.bind is Some {
                None
            } else {
                Some(self.interface@)
            }),
    {
        match &self.bind {
            Some(_) => None,
            None => Some(text::copy(self.interface.as_str())),
        }
    }

    /// The address to listen on.
    ///
    /// To listen on every address would open a resolver to the Internet; the
    /// service is meant for the peers alone.
    pub fn listen_address(&self, tunnel: Tunnel) -> (r: Result<SocketAddr, String>)
        ensures
            listens_on(r, *self, tunnel),
    {
        if let Some(bind) = &self.bind {
            return parse_bind(bind.as_str());
        }
        match tunnel {
            Tunnel::Down => {
                let mut said = text::copy("interface ");
                said.append(self.interface.as_str());
                said.append(" arrêtée — la monter, ou imposer PERSES_DNS_BIND");
                Err(said)
            },
            Tunnel::Unaddressed(device) => {
                let mut said = text::copy("aucune adresse sur ");
                said.append(device.as_str());
                said.append(" — imposer PERSES_DNS_BIND (ex. 10.8.0.1:53)");
                Err(said)
            },
            Tunnel::At(ip) => Ok(SocketAddr::new(ip, DNS_PORT)),
        }
    }

    /// The settings of the relay, once the address to listen on is known.
    pub fn config(&self, bind: SocketAddr) -> (r: Result<DnsConfig, String>)
        ensures
            match bind_value(self.upstream@) {
                Some(upstream) => {
                    &&& r matches Ok(cfg)
                    &&& cfg.bind == bind
                    &&& cfg.upstream == upstream
                    &&& cfg.timeout == self.timeout
                    &&& cfg.workers == self.workers
                    &&& cfg.queue == self.queue
                    &&& cfg.verbose
                },
                None => r matches Err(said) && said@ == unreadable_address(self.upstream@),
            },
    {
        match parse_bind(self.upstream.as_str()) {
            Ok(upstream) => Ok(
                DnsConfig {
                    bind,
                    upstream,
                    timeout: self.timeout,
                    workers: self.workers,
                    queue: self.queue,
                    verbose: true,
                },
            ),
            Err(said) => Err(said),
        }
    }
}

// ---------------------------------------------------------------------------
// Laws
// ---------------------------------------------------------------------------

/// An address without a port is served on port 53, and one with a port on
/// that. Only an IPv6 address has a scope to write.
pub proof fn law_address_without_port_is_served_on_53(ip: IpAddr, socket: SocketAddr)
    requires
        socket.ip is V4 ==> socket.scope_id == 0,
    ensures
        bind_value(ip::address_text(ip)) == Some(SocketAddr { ip, scope_id: 0, port: DNS_PORT }),
        bind_value(ip::socket_text(socket)) == Some(socket),
{
    ip::law_address_reads_back(ip);
    ip::law_address_is_no_socket(ip);
    ip::law_socket_reads_back(socket);
}

/// A number above zero is read of a variable, with or without white space
/// around it; zero, and what is no number, is none.
pub proof fn law_positive_number_reads_back(
    n: nat,
    before: Seq<char>,
    after: Seq<char>,
    s: Seq<char>,
    at: int,
)
    requires
        text::all_spaces(before),
        text::all_spaces(after),
        text::is_tight(s),
        0 <= at < s.len(),
        !text::is_digit(s[at]),
        at > 0 || s[0] != '+' || s.len() == 1,
    ensures
        positive(Some(before + text::decimal(n) + after)) == (if 0 < n <= u64::MAX {
            Some(n)
        } else {
            None
        }),
        positive(Some(before + s + after)) is None,
        positive(None) is None,
{
    let digits = text::decimal(n);
    let whole = before + digits + after;
    text::lemma_decimal(n);
    assert(text::is_digit(digits[0]) && text::is_digit(digits[digits.len() - 1]));
    text::law_only_space_is_trimmed(before, digits, after);
    text::law_number_reads_back(n, u64::MAX as nat, 0);
    assert(text::zeros(0) + digits =~= digits);
    text::law_only_space_is_trimmed(before, s, after);
    text::law_other_texts_are_no_numbers(s, at, u64::MAX as nat);
}

/// The relay listens on the address that is imposed, whatever the tunnel is;
/// otherwise on that of the tunnel, port 53, and nowhere where that is not
/// known.
pub proof fn law_listens_on_the_tunnel_only(
    r: Result<SocketAddr, String>,
    resolver: Resolver,
    tunnel: Tunnel,
    ip: IpAddr,
)
    requires
        listens_on(r, resolver, tunnel),
    ensures
        resolver.bind matches Some(bind) && bind@ == ip::address_text(ip) ==> r == Ok::<
            SocketAddr,
            String,
        >(SocketAddr { ip, scope_id: 0, port: 53 }),
        resolver.bind is None && tunnel == Tunnel::At(ip) ==> r == Ok::<SocketAddr, String>(
            SocketAddr { ip, scope_id: 0, port: 53 },
        ),
        resolver.bind is None && !(tunnel is At) ==> r is Err,
{
    let any = SocketAddr { ip: IpAddr::V4(0), scope_id: 0, port: 0 };
    law_address_without_port_is_served_on_53(ip, any);
}

/// What is said of an address, an interface or a device names it.
pub proof fn law_messages_name_what_they_are_about(s: Seq<char>)
    ensures
        text::occurs(s, unreadable_address(s)),
        text::occurs(s, down_text(s)),
        text::occurs(s, unaddressed_text(s)),
{
    text::lemma_occurs(
        "adresse illisible: "@,
        s,
        " — attendu `10.8.0.1` ou `10.8.0.1:53`"@,
    );
    text::lemma_occurs(
        "interface "@,
        s,
        " arrêtée — la monter, ou imposer PERSES_DNS_BIND"@,
    );
    text::lemma_occurs(
        "aucune adresse sur "@,
        s,
        " — imposer PERSES_DNS_BIND (ex. 10.8.0.1:53)"@,
    );
}

/// Settings that are written to the environment are read back of it: each text
/// as it is, each number above zero as it is, and the time in seconds. What is
/// missing is as usual.
pub proof fn law_settings_read_back(
    r: Resolver,
    vars: ResolverVars,
    timeout: nat,
    workers: nat,
    queue: nat,
    at: int,
)
    requires
        reads_vars(r, vars),
    ensures
        vars.bind matches Some(v) ==> (0 <= at < v@.len() && !text::is_space(v@[at])
            ==> text::option_view(r.bind) == Some(v@)),
        vars.bind is None ==> r.bind is None,
        vars.interface matches Some(v) ==> (0 <= at < v@.len() && !text::is_space(v@[at])
            ==> r.interface@ == v@),
        vars.interface is None ==> r.interface@ == "wg0"@,
        vars.upstream matches Some(v) ==> (0 <= at < v@.len() && !text::is_space(v@[at])
            ==> r.upstream@ == v@),
        vars.upstream is None ==> r.upstream@ == "1.1.1.1:53"@,
        vars.timeout matches Some(v) ==> (v@ == text::decimal(timeout) && 0 < timeout <= u64::MAX
            ==> r.timeout == timeout * 1_000_000_000),
        vars.timeout is None ==> r.timeout == 3_000_000_000,
        vars.workers matches Some(v) ==> (v@ == text::decimal(workers) && 0 < workers <= usize::MAX
            ==> r.workers == workers),
        vars.workers is None ==> r.workers == 4,
        vars.queue matches Some(v) ==> (v@ == text::decimal(queue) && 0 < queue <= usize::MAX
            ==> r.queue == queue),
        vars.queue is None ==> r.queue == 256,
{
    lemma_positive(timeout);
    lemma_positive(workers);
    lemma_positive(queue);
    if let Some(v) = vars.bind {
        env::law_blank_variable_says_nothing(v@, at);
    }
    if let Some(v) = vars.interface {
        env::law_blank_variable_says_nothing(v@, at);
    }
    if let Some(v) = vars.upstream {
        env::law_blank_variable_says_nothing(v@, at);
    }
}

/// A number above zero is read.
proof fn lemma_positive(n: nat)
    ensures
        0 < n <= u64::MAX ==> positive(Some(text::decimal(n))) == Some(n),
{
    let none = Seq::<char>::empty();
    let other = seq!['x'];
    law_positive_number_reads_back(n, none, none, other, 0);
    assert(none + text::decimal(n) + none =~= text::decimal(n));
}

} // verus!
