//! Where the cache is, and what stands before its keys.

use vstd::prelude::*;

use crate::env;
use crate::text;

use super::error::CacheError;

verus! {

/// The usual host: the server listens locally.
pub const DEFAULT_HOST: &'static str = "127.0.0.1";

/// The usual port.
pub const DEFAULT_PORT: u16 = 6379;

/// What usually stands before every key, so that other uses of the same server
/// are not disturbed.
pub const DEFAULT_NAMESPACE: &'static str = "perses";

/// How to reach the cache.
#[derive(Debug, Clone)]
pub struct CacheConfig {
    /// The host.
    pub host: String,
    /// The port.
    pub port: u16,
    /// The password, which is never written anywhere.
    pub password: Option<String>,
    /// The number of the database.
    pub db: i64,
    /// What stands before every key.
    pub namespace: String,
}

/// The variables that the settings are read of, as the environment has them.
#[derive(Debug, Clone)]
pub struct CacheVars {
    /// `REDIS_HOST`.
    pub host: Option<String>,
    /// `REDIS_PORT`.
    pub port: Option<String>,
    /// `REDIS_DB`.
    pub db: Option<String>,
    /// `REDIS_PASSWORD`.
    pub password: Option<String>,
}

/// Where a connection goes.
#[derive(Debug, Clone)]
pub struct ConnectionAddr {
    /// The host.
    pub host: String,
    /// The port.
    pub port: u16,
}

/// How a connection is opened at the server.
#[derive(Debug, Clone)]
pub struct Login {
    /// The number of the database.
    pub db: i64,
    /// The user, if there is one.
    pub username: Option<String>,
    /// The password, if there is one.
    pub password: Option<String>,
}

/// A connection to the cache.
#[derive(Debug, Clone)]
pub struct ConnectionInfo {
    /// Where it goes.
    pub addr: ConnectionAddr,
    /// How it is opened.
    pub redis: Login,
}

/// The port that a variable says; `None` where it says something else.
pub open spec fn port_of(value: Option<Seq<char>>) -> Option<nat> {
    match value {
        Some(v) => text::unsigned_value(v, u16::MAX as nat),
        None => Some(DEFAULT_PORT as nat),
    }
}

/// The database that a variable says; `None` where it says something else.
pub open spec fn db_of(value: Option<Seq<char>>) -> Option<int> {
    match value {
        Some(v) => text::signed_value(v),
        None => Some(0),
    }
}

/// The settings are what the variables say, and as usual where they say
/// nothing; a port or a database that cannot be read is told, the port first.
pub open spec fn reads_vars(r: Result<CacheConfig, CacheError>, vars: CacheVars) -> bool {
    match (port_of(text::option_view(vars.port)), db_of(text::option_view(vars.db))) {
        (None, _) => r matches Err(CacheError::InvalidConfig(said)) && said@
            == "REDIS_PORT invalide: "@ + vars.port.unwrap()@,
        (_, None) => r matches Err(CacheError::InvalidConfig(said)) && said@
            == "REDIS_DB invalide: "@ + vars.db.unwrap()@,
        (Some(port), Some(db)) => {
            &&& r matches Ok(cfg)
            &&& cfg.host@ == env::or_usual(text::option_view(vars.host), DEFAULT_HOST@)
            &&& cfg.port == port
            &&& cfg.db == db
            &&& text::option_view(cfg.password) == env::present(text::option_view(vars.password))
            &&& cfg.namespace@ == DEFAULT_NAMESPACE@
        },
    }
}

/// A copy of an optional text.
fn copy_option(value: &Option<String>) -> (r: Option<String>)
    ensures
        text::option_view(r) == text::option_view(*value),
{
    match value {
        Some(v) => Some(text::copy(v.as_str())),
        None => None,
    }
}

/// The error for a variable that cannot be read.
fn invalid(label: &str, value: &str) -> (r: CacheError)
    ensures
        r matches CacheError::InvalidConfig(said) && said@ == label@ + value@,
{
    let mut said = text::copy(label);
    said.append(value);
    CacheError::InvalidConfig(said)
}

impl Default for CacheConfig {
    fn default() -> (r: Self)
        ensures
            r.host@ == DEFAULT_HOST@,
            r.port == DEFAULT_PORT,
            r.password is None,
            r.db == 0,
            r.namespace@ == DEFAULT_NAMESPACE@,
    {
        CacheConfig {
            host: text::copy(DEFAULT_HOST),
            port: DEFAULT_PORT,
            password: None,
            db: 0,
            namespace: text::copy(DEFAULT_NAMESPACE),
        }
    }
}

impl CacheConfig {
    /// Reads the environment. The port is looked at before the database; an
    /// empty password is none.
    pub fn from_env(vars: &CacheVars) -> (r: Result<Self, CacheError>)
        ensures
            reads_vars(r, *vars),
    {
        let mut cfg = CacheConfig::default();
        if let Some(host) = &vars.host {
            cfg.host = text::copy(host.as_str());
        }
        if let Some(port) = &vars.port {
            match text::read_unsigned(text::chars_of(port.as_str()).as_slice(), 65535) {
                Some(n) => {
                    cfg.port = n as u16;
                },
                None => {
                    return Err(invalid("REDIS_PORT invalide: ", port.as_str()));
                },
            }
        }
        if let Some(db) = &vars.db {
            match text::read_signed(text::chars_of(db.as_str()).as_slice()) {
                Some(n) => {
                    cfg.db = n;
                },
                None => {
                    return Err(invalid("REDIS_DB invalide: ", db.as_str()));
                },
            }
        }
        cfg.password = env::read_present(&vars.password);
        Ok(cfg)
    }

    /// The server in words, without the password.
    pub fn endpoint(&self) -> (r: String)
        ensures
            r@ == endpoint_text(self.host@, self.port, self.db),
    {
        let mut out = text::copy(self.host.as_str());
        out.push(':');
        text::push_decimal(self.port as u64, &mut out);
        out.push('/');
        text::push_signed(self.db, &mut out);
        assert(out@ =~= endpoint_text(self.host@, self.port, self.db));
        out
    }

    /// The connection that these settings describe.
    ///
    /// It is put together field by field rather than as an URL: a password may
    /// hold characters that would have to be encoded there.
    pub fn connection_info(&self) -> (r: ConnectionInfo)
        ensures
            r.addr.host@ == self.host@,
            r.addr.port == self.port,
            r.redis.db == self.db,
            r.redis.username is None,
            text::option_view(r.redis.password) == text::option_view(self.password),
    {
        ConnectionInfo {
            addr: ConnectionAddr { host: text::copy(self.host.as_str()), port: self.port },
            redis: Login { db: self.db, username: None, password: copy_option(&self.password) },
        }
    }

    /// A key with the namespace before it: `visited` becomes `perses:visited`.
    pub fn key(&self, key: &str) -> (r: String)
        ensures
            r@ == namespaced(self.namespace@, key@),
    {
        if text::chars_of(self.namespace.as_str()).len() == 0 {
            return text::copy(key);
        }
        let mut out = text::copy(self.namespace.as_str());
        out.push(':');
        out.append(key);
        out
    }
}

/// The server in words.
pub open spec fn endpoint_text(host: Seq<char>, port: u16, db: i64) -> Seq<char> {
    host.push(':') + text::decimal(port as nat) + seq!['/'] + text::signed_decimal(db as int)
}

/// A key with a namespace before it.
pub open spec fn namespaced(namespace: Seq<char>, key: Seq<char>) -> Seq<char> {
    if namespace.len() == 0 {
        key
    } else {
        namespace.push(':') + key
    }
}

// ---------------------------------------------------------------------------
// Laws
// ---------------------------------------------------------------------------

/// Within a namespace, different keys stay different.
pub proof fn law_keys_stay_apart(namespace: Seq<char>, a: Seq<char>, b: Seq<char>)
    ensures
        namespaced(namespace, a) == namespaced(namespace, b) <==> a == b,
{
    if namespace.len() > 0 {
        let n = namespace.len() as int + 1;
        assert(namespaced(namespace, a).skip(n) =~= a);
        assert(namespaced(namespace, b).skip(n) =~= b);
    }
}

/// Two namespaces without a colon do not tread on one another: no key of one
/// is a key of the other.
pub proof fn law_namespaces_stay_apart(
    first: Seq<char>,
    second: Seq<char>,
    a: Seq<char>,
    b: Seq<char>,
)
    requires
        first.len() > 0,
        second.len() > 0,
        !first.contains(':'),
        !second.contains(':'),
        first != second,
    ensures
        namespaced(first, a) != namespaced(second, b),
{
    let s = namespaced(first, a);
    let t = namespaced(second, b);
    if s == t {
        text::lemma_position_behind(first, ':', a);
        text::lemma_position_behind(second, ':', b);
        assert(first =~= s.take(first.len() as int));
        assert(second =~= t.take(second.len() as int));
    }
}

/// The server in words tells the host, the port and the database, and nothing
/// else: each is read back, whatever the password is.
pub proof fn law_endpoint_reads_back(host: Seq<char>, port: u16, db: i64)
    requires
        !host.contains(':'),
    ensures
        ({
            let said = endpoint_text(host, port, db);
            let colon = text::position(said, ':');
            let behind = said.skip(colon + 1);
            let slash = text::position(behind, '/');
            &&& said.take(colon) == host
            &&& text::unsigned_value(behind.take(slash), u16::MAX as nat) == Some(port as nat)
            &&& text::signed_value(behind.skip(slash + 1)) == Some(db as int)
        }),
{
    let said = endpoint_text(host, port, db);
    let digits = text::decimal(port as nat);
    let last = text::signed_decimal(db as int);
    let behind = digits.push('/') + last;
    assert(said =~= host.push(':') + behind);
    text::lemma_position_behind(host, ':', behind);
    assert(said.take(host.len() as int) =~= host);
    assert(said.skip(host.len() as int + 1) =~= behind);
    text::lemma_decimal(port as nat);
    assert(!digits.contains('/')) by {
        if digits.contains('/') {
            let i = choose|i: int| 0 <= i < digits.len() && digits[i] == '/';
            assert(text::is_digit(digits[i]));
        }
    }
    text::lemma_position_behind(digits, '/', last);
    assert(behind.take(digits.len() as int) =~= digits);
    assert(behind.skip(digits.len() as int + 1) =~= last);
    text::lemma_decimal_reads_back(port as nat, u16::MAX as nat);
    text::law_signed_number_reads_back(db as int);
}

/// Every port of 16 bits and every database of 64 bits can be said, and
/// nothing greater; where nothing is said they are 6379 and 0.
pub proof fn law_port_and_database_read_back(port: nat, db: int)
    ensures
        port_of(Some(text::decimal(port))) == (if port <= 65535 {
            Some(port)
        } else {
            None
        }),
        db_of(Some(text::signed_decimal(db))) == (if i64::MIN <= db <= i64::MAX {
            Some(db)
        } else {
            None
        }),
        port_of(None) == Some(6379nat),
        db_of(None) == Some(0int),
{
    text::law_number_reads_back(port, u16::MAX as nat, 0);
    assert(text::zeros(0) + text::decimal(port) =~= text::decimal(port));
    text::law_signed_number_reads_back(db);
}

/// A key stands behind the namespace and a colon; without a namespace it stands
/// alone.
pub proof fn law_key_stands_in_its_namespace(namespace: Seq<char>, key: Seq<char>)
    ensures
        namespaced(Seq::empty(), key) == key,
        namespace.len() > 0 && !namespace.contains(':') ==> {
            let full = namespaced(namespace, key);
            let colon = text::position(full, ':');
            full.take(colon) == namespace && full.skip(colon + 1) == key
        },
{
    if namespace.len() > 0 && !namespace.contains(':') {
        let full = namespaced(namespace, key);
        text::lemma_position_behind(namespace, ':', key);
        assert(full.take(namespace.len() as int) =~= namespace);
        assert(full.skip(namespace.len() as int + 1) =~= key);
    }
}

/// Settings that are written to the environment are read back of it: the host
/// and the password as they are, every port of 16 bits and every database of
/// 64. What is missing is as usual, and an empty password is none.
pub proof fn law_settings_read_back(
    r: Result<CacheConfig, CacheError>,
    vars: CacheVars,
    port: nat,
    db: int,
)
    requires
        reads_vars(r, vars),
        vars.port matches Some(v) ==> v@ == text::decimal(port),
        vars.db matches Some(v) ==> v@ == text::signed_decimal(db),
    ensures
        r is Ok <==> (vars.port is Some ==> port <= 65535) && (vars.db is Some ==> i64::MIN <= db
            <= i64::MAX),
        r matches Ok(cfg) ==> {
            &&& vars.host matches Some(v) ==> cfg.host@ == v@
            &&& vars.host is None ==> cfg.host@ == "127.0.0.1"@
            &&& vars.port is Some ==> cfg.port == port
            &&& vars.port is None ==> cfg.port == 6379
            &&& vars.db is Some ==> cfg.db == db
            &&& vars.db is None ==> cfg.db == 0
            &&& vars.password matches Some(v) ==> (v@.len() > 0 ==> text::option_view(cfg.password)
                == Some(v@))
            &&& vars.password matches Some(v) ==> (v@.len() == 0 ==> cfg.password is None)
            &&& vars.password is None ==> cfg.password is None
            &&& cfg.namespace@ == "perses"@
        },
        r matches Err(e) ==> (e matches CacheError::InvalidConfig(said) && said@ == (if vars.port is Some
            && port > 65535 {
            "REDIS_PORT invalide: "@ + text::decimal(port)
        } else {
            "REDIS_DB invalide: "@ + text::signed_decimal(db)
        })),
{
    law_port_and_database_read_back(port, db);
}

} // verus!
