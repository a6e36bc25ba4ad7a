//! What the cache is asked, and how a command is carried through.
//!
//! The connection is opened when it is needed and opened again by itself when
//! it breaks: the process runs for days, and a restart of the server must not
//! end it.

use vstd::prelude::*;

use crate::text;

use super::config;
use super::config::CacheConfig;
use super::error;
use super::error::{CacheError, RedisFault};

verus! {

/// Access to the cache, as far as it is decided on here: what is sent, and
/// when the connection is opened.
#[derive(Debug)]
pub struct Cache {
    /// The settings.
    pub config: CacheConfig,
    /// The connection is open.
    pub connected: bool,
}

/// What happened on the way of a command.
#[derive(Debug)]
pub enum CommandEvent {
    /// A command is to be carried through.
    Begin,
    /// The connection was opened, or not.
    Connected {
        /// For the second attempt.
        retried: bool,
        /// What came of it.
        result: Result<(), RedisFault>,
    },
    /// The server answered the command, or not.
    Answered {
        /// At the second attempt.
        retried: bool,
        /// What came of it.
        result: Result<(), RedisFault>,
    },
}

/// What to do with a command next.
#[derive(Debug)]
pub enum CommandStep {
    /// Open a connection.
    Connect {
        /// For the second attempt.
        retried: bool,
    },
    /// Send the command.
    Send {
        /// At the second attempt.
        retried: bool,
    },
    /// The answer stands.
    Done,
    /// The command failed.
    Failed(CacheError),
}

/// What follows an event on the way of a command.
pub open spec fn leads_to(
    connected: bool,
    endpoint: Seq<char>,
    command: Seq<char>,
    event: CommandEvent,
    next: CommandStep,
) -> bool {
    match event {
        CommandEvent::Begin => if connected {
            next matches CommandStep::Send { retried } && !retried
        } else {
            next matches CommandStep::Connect { retried } && !retried
        },
        CommandEvent::Connected { retried, result } => match result {
            Ok(_) => next matches CommandStep::Send { retried: r } && r == retried,
            Err(fault) => {
                &&& next matches CommandStep::Failed(CacheError::Connect { endpoint: e, source })
                &&& e@ == endpoint
                &&& source == fault
            },
        },
        CommandEvent::Answered { retried, result } => match result {
            Ok(_) => next is Done,
            Err(fault) => if error::is_lost(fault) && !retried {
                next matches CommandStep::Connect { retried: r } && r
            } else {
                &&& next matches CommandStep::Failed(CacheError::Command { command: c, source })
                &&& c@ == command
                &&& source == fault
            },
        },
    }
}

/// The connection is open after an event.
pub open spec fn connected_after(connected: bool, event: CommandEvent) -> bool {
    match event {
        CommandEvent::Begin => connected,
        CommandEvent::Connected { result, .. } => if result is Ok {
            true
        } else {
            connected
        },
        CommandEvent::Answered { retried, result } => match result {
            Ok(_) => connected,
            Err(fault) => if error::is_lost(fault) && !retried {
                false
            } else {
                connected
            },
        },
    }
}

/// A command for the server: its name, and its arguments.
#[derive(Debug, PartialEq, Eq)]
pub struct Request {
    /// The name of the command.
    pub command: &'static str,
    /// Its arguments, in their order.
    pub args: Vec<String>,
}

/// A request is this command with these arguments.
pub open spec fn is_request(request: Request, command: Seq<char>, args: Seq<Seq<char>>) -> bool {
    request.command@ == command && text::string_views(request.args@) == args
}

/// A request without arguments.
fn bare(command: &'static str) -> (r: Request)
    ensures
        is_request(r, command@, Seq::empty()),
{
    let args: Vec<String> = Vec::new();
    assert(text::string_views(args@) =~= Seq::empty());
    Request { command, args }
}

/// A request with one more argument.
fn with(request: Request, arg: String) -> (r: Request)
    ensures
        is_request(r, request.command@, text::string_views(request.args@).push(arg@)),
{
    let Request { command, args } = request;
    let mut args = args;
    let ghost before = text::string_views(args@);
    args.push(arg);
    assert(text::string_views(args@) =~= before.push(arg@));
    Request { command, args }
}

/// The seconds of a duration that the server is told: one at least.
pub open spec fn kept_seconds(ttl: u128) -> u64 {
    if ttl / 1_000_000_000 < 1 {
        1
    } else {
        (ttl / 1_000_000_000) as u64
    }
}

impl Cache {
    /// The key of the server that stands for a key.
    pub open spec fn full_key(&self, key: Seq<char>) -> Seq<char> {
        config::namespaced(self.config.namespace@, key)
    }

    /// A request about a key.
    fn about(&self, command: &'static str, key: &str) -> (r: Request)
        ensures
            is_request(r, command@, seq![self.full_key(key@)]),
    {
        let r = with(bare(command), self.config.key(key));
        assert(Seq::empty().push(self.full_key(key@)) =~= seq![self.full_key(key@)]);
        r
    }

    /// A request about a key and one more text.
    fn about_with(&self, command: &'static str, key: &str, value: &str) -> (r: Request)
        ensures
            is_request(r, command@, seq![self.full_key(key@), value@]),
    {
        let r = with(self.about(command, key), text::copy(value));
        assert(seq![self.full_key(key@)].push(value@) =~= seq![self.full_key(key@), value@]);
        r
    }

    /// Asks whether the server answers.
    pub fn ping(&self) -> (r: Request)
        ensures
            is_request(r, "PING"@, Seq::empty()),
    {
        bare("PING")
    }

    /// Writes a value over the one before.
    pub fn set(&self, key: &str, value: &str) -> (r: Request)
        ensures
            is_request(r, "SET"@, seq![self.full_key(key@), value@]),
    {
        self.about_with("SET", key, value)
    }

    /// Writes a value that will expire; `ttl` is in nanoseconds.
    pub fn set_with_ttl(&self, key: &str, value: &str, ttl: u128) -> (r: Request)
        requires
            ttl / 1_000_000_000 <= u64::MAX,
        ensures
            is_request(
                r,
                "SETEX"@,
                seq![self.full_key(key@), text::decimal(kept_seconds(ttl) as nat), value@],
            ),
    {
        let seconds = text::decimal_text(ttl_seconds(ttl));
        let r = with(self.about_with("SETEX", key, seconds.as_str()), text::copy(value));
        assert(text::string_views(r.args@) =~= seq![self.full_key(key@), seconds@, value@]);
        r
    }

    /// Reads a value.
    pub fn get(&self, key: &str) -> (r: Request)
        ensures
            is_request(r, "GET"@, seq![self.full_key(key@)]),
    {
        self.about("GET", key)
    }

    /// Removes a key. The reply counts the keys removed: see [`changed`].
    pub fn delete(&self, key: &str) -> (r: Request)
        ensures
            is_request(r, "DEL"@, seq![self.full_key(key@)]),
    {
        self.about("DEL", key)
    }

    /// Asks whether a key is there.
    pub fn key_exists(&self, key: &str) -> (r: Request)
        ensures
            is_request(r, "EXISTS"@, seq![self.full_key(key@)]),
    {
        self.about("EXISTS", key)
    }

    /// Adds to a counter, which starts at zero. The server does it in one go,
    /// unlike a reading and a writing.
    pub fn increment(&self, key: &str, by: i64) -> (r: Request)
        ensures
            is_request(
                r,
                "INCRBY"@,
                seq![self.full_key(key@), text::signed_decimal(by as int)],
            ),
    {
        self.about_with("INCRBY", key, signed_text(by).as_str())
    }

    /// Lets a key that is there expire; `ttl` is in nanoseconds.
    pub fn expire(&self, key: &str, ttl: u128) -> (r: Request)
        requires
            ttl / 1_000_000_000 <= u64::MAX,
        ensures
            is_request(
                r,
                "EXPIRE"@,
                seq![
                    self.full_key(key@),
                    text::signed_decimal((kept_seconds(ttl) as i64) as int),
                ],
            ),
    {
        self.about_with("EXPIRE", key, signed_text(ttl_seconds(ttl) as i64).as_str())
    }

    /// Adds a member to a set. The reply counts the members that are new: see
    /// [`changed`].
    pub fn add_to_set(&self, set: &str, member: &str) -> (r: Request)
        ensures
            is_request(r, "SADD"@, seq![self.full_key(set@), member@]),
    {
        self.about_with("SADD", set, member)
    }

    /// Takes a member out of a set. The reply counts those that were there:
    /// see [`changed`].
    pub fn remove_from_set(&self, set: &str, member: &str) -> (r: Request)
        ensures
            is_request(r, "SREM"@, seq![self.full_key(set@), member@]),
    {
        self.about_with("SREM", set, member)
    }

    /// Asks whether a set has a member.
    pub fn set_contains(&self, set: &str, member: &str) -> (r: Request)
        ensures
            is_request(r, "SISMEMBER"@, seq![self.full_key(set@), member@]),
    {
        self.about_with("SISMEMBER", set, member)
    }

    /// Asks for all the members of a set.
    pub fn set_members(&self, set: &str) -> (r: Request)
        ensures
            is_request(r, "SMEMBERS"@, seq![self.full_key(set@)]),
    {
        self.about("SMEMBERS", set)
    }

    /// Asks how many members a set has.
    pub fn set_len(&self, set: &str) -> (r: Request)
        ensures
            is_request(r, "SCARD"@, seq![self.full_key(set@)]),
    {
        self.about("SCARD", set)
    }
}

/// A number in decimal, with its sign.
fn signed_text(n: i64) -> (r: String)
    ensures
        r@ == text::signed_decimal(n as int),
{
    let mut out = String::new();
    text::push_signed(n, &mut out);
    assert(out@ =~= text::signed_decimal(n as int));
    out
}

impl Cache {
    /// Access that is not connected yet.
    pub fn new(config: CacheConfig) -> (r: Self)
        ensures
            r.config == config,
            !r.connected,
    {
        Cache { config, connected: false }
    }

    /// Carries a command through, step by step.
    ///
    /// Where the connection is lost, the server has restarted or the network
    /// has failed for a moment: a new connection is opened and the command is
    /// sent again, once.
    pub fn run(&mut self, command: &'static str, event: CommandEvent) -> (r: CommandStep)
        ensures
            leads_to(
                old(self).connected,
                config::endpoint_text(
                    old(self).config.host@,
                    old(self).config.port,
                    old(self).config.db,
                ),
                command@,
                event,
                r,
            ),
            final(self).connected == connected_after(old(self).connected, event),
            final(self).config == old(self).config,
    {
        match event {
            CommandEvent::Begin => if self.connected {
                CommandStep::Send { retried: false }
            } else {
                CommandStep::Connect { retried: false }
            },
            CommandEvent::Connected { retried, result } => match result {
                Ok(_) => {
                    self.connected = true;
                    CommandStep::Send { retried }
                },
                Err(source) => CommandStep::Failed(
                    CacheError::Connect { endpoint: self.config.endpoint(), source },
                ),
            },
            CommandEvent::Answered { retried, result } => match result {
                Ok(_) => CommandStep::Done,
                Err(source) => {
                    if error::is_disconnect(&source) && !retried {
                        self.connected = false;
                        return CommandStep::Connect { retried: true };
                    }
                    CommandStep::Failed(CacheError::command(command, source))
                },
            },
        }
    }
}

/// How long a value is kept, in whole seconds: one at least.
pub fn ttl_seconds(ttl: u128) -> (r: u64)
    requires
        ttl / 1_000_000_000 <= u64::MAX,
    ensures
        r == kept_seconds(ttl),
        r >= 1,
{
    let seconds: u128 = ttl / 1_000_000_000;
    if seconds < 1 {
        1
    } else {
        seconds as u64
    }
}

/// Tells from how many it changed whether a command changed anything.
pub fn changed(count: i64) -> (r: bool)
    ensures
        r == (count > 0),
{
    count > 0
}

// ---------------------------------------------------------------------------
// Laws
// ---------------------------------------------------------------------------

/// How far a command is from its end.
pub open spec fn distance(step: CommandStep) -> int {
    match step {
        CommandStep::Connect { retried } => if retried {
            2
        } else {
            4
        },
        CommandStep::Send { retried } => if retried {
            1
        } else {
            3
        },
        CommandStep::Done => 0,
        CommandStep::Failed(_) => 0,
    }
}

/// An event is what came of a step.
pub open spec fn comes_of(step: CommandStep, event: CommandEvent) -> bool {
    match step {
        CommandStep::Connect { retried } => event matches CommandEvent::Connected { retried: r, .. }
            && r == retried,
        CommandStep::Send { retried } => event matches CommandEvent::Answered { retried: r, .. }
            && r == retried,
        _ => false,
    }
}

/// A command always comes to an end: each step brings it closer, so that it is
/// sent twice at most.
pub proof fn law_command_comes_to_an_end(
    connected: bool,
    endpoint: Seq<char>,
    command: Seq<char>,
    step: CommandStep,
    event: CommandEvent,
    next: CommandStep,
)
    requires
        comes_of(step, event),
        leads_to(connected, endpoint, command, event, next),
    ensures
        0 <= distance(next) < distance(step) <= 4,
{
}

/// A connection that broke, whether it was dropped, failed or was refused, is
/// opened again by itself: the first time, the command does not fail but is
/// sent again on a new connection.
pub proof fn law_lost_connection_is_reopened(
    endpoint: Seq<char>,
    command: Seq<char>,
    fault: RedisFault,
    next: CommandStep,
)
    requires
        fault.dropped || fault.io || fault.refused,
        leads_to(
            true,
            endpoint,
            command,
            CommandEvent::Answered { retried: false, result: Err(fault) },
            next,
        ),
    ensures
        next matches CommandStep::Connect { retried } && retried,
        !connected_after(
            true,
            CommandEvent::Answered { retried: false, result: Err(fault) },
        ),
{
}

/// Any other failure is told at once, and so is a second loss: the command is
/// not sent again, and the connection is left as it was.
pub proof fn law_other_failures_are_told(
    connected: bool,
    endpoint: Seq<char>,
    command: Seq<char>,
    fault: RedisFault,
    retried: bool,
    next: CommandStep,
)
    requires
        retried || (!fault.dropped && !fault.io && !fault.refused),
        leads_to(
            connected,
            endpoint,
            command,
            CommandEvent::Answered { retried, result: Err(fault) },
            next,
        ),
    ensures
        next matches CommandStep::Failed(CacheError::Command { command: c, source }) && c@
            == command && source == fault,
        connected_after(connected, CommandEvent::Answered { retried, result: Err(fault) })
            == connected,
{
}

/// A command goes out on the connection that is open, or on one that is opened
/// for it; where none can be opened, that is told with the name of the server.
/// An answer ends it.
pub proof fn law_command_goes_out_on_an_open_connection(
    connected: bool,
    endpoint: Seq<char>,
    command: Seq<char>,
    event: CommandEvent,
    next: CommandStep,
)
    requires
        leads_to(connected, endpoint, command, event, next),
    ensures
        event is Begin ==> (next is Send <==> connected) && (next is Connect <==> !connected),
        event matches CommandEvent::Connected { result: Ok(_), .. } ==> next is Send
            && connected_after(connected, event),
        event matches CommandEvent::Connected { result: Err(fault), .. } ==> (next matches
            CommandStep::Failed(CacheError::Connect { endpoint: e, source }) && e@ == endpoint
            && source == fault) && connected_after(connected, event) == connected,
        event matches CommandEvent::Answered { result: Ok(_), .. } ==> next is Done
            && connected_after(connected, event) == connected,
{
}

/// A value is kept for the whole seconds of its time, and for one at least.
pub proof fn law_value_is_kept_for_its_time(ttl: u128)
    requires
        ttl / 1_000_000_000 <= u64::MAX,
    ensures
        kept_seconds(ttl) >= 1,
        ttl < 1_000_000_000 ==> kept_seconds(ttl) == 1,
        ttl >= 1_000_000_000 ==> kept_seconds(ttl) * 1_000_000_000 <= ttl < (kept_seconds(ttl) + 1)
            * 1_000_000_000,
{
}

/// A request has the name of its command and all of its arguments, each in its
/// place. The key among them stands in the namespace of the cache.
pub proof fn law_request_has_all_its_arguments(
    request: Request,
    command: Seq<char>,
    args: Seq<Seq<char>>,
    cache: Cache,
    key: Seq<char>,
)
    requires
        is_request(request, command, args),
    ensures
        request.command@ == command,
        request.args@.len() == args.len(),
        forall|i: int| 0 <= i < args.len() ==> (#[trigger] request.args@[i])@ == args[i],
        cache.config.namespace@.len() == 0 ==> cache.full_key(key) == key,
        cache.config.namespace@.len() > 0 ==> cache.full_key(key) == text::joined(
            seq![cache.config.namespace@, key],
            ':',
        ),
{
    let views = text::string_views(request.args@);
    assert(views.len() == request.args@.len());
    assert forall|i: int| 0 <= i < args.len() implies (#[trigger] request.args@[i])@ == args[i] by {
        assert(views[i] == request.args@[i]@);
    }
    let two = seq![cache.config.namespace@, key];
    assert(two.drop_last() =~= seq![cache.config.namespace@]);
    assert(text::joined(seq![cache.config.namespace@], ':') == cache.config.namespace@);
}

} // verus!
