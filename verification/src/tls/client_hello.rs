//! The SNI of a TLS ClientHello.
//!
//! The SNI (*Server Name Indication*) is the host name that the client
//! announces in the clear at the very start of the handshake: it stays legible
//! where the client encrypts its DNS.
//!
//! The layers nest, each with its length before it:
//!
//! ```text
//! TLS record      : 0x16 | version(2) | length(2) | ...
//!  handshake      : 0x01 | length(3) | ...
//!   ClientHello   : version(2) | random(32) | session | suites | compression
//!    extensions   : length(2) | [ kind(2) | length(2) | body ]...
//!     server_name : length(2) | 0x00 | length(2) | "github.com"
//! ```

use vstd::prelude::*;
use vstd::slice::slice_subrange;

use crate::bytes;
use crate::name;

verus! {

/// The kind of a TLS record that carries a handshake.
pub const RECORD_HANDSHAKE: u8 = 0x16;

/// The kind of a handshake message that is a ClientHello.
pub const HANDSHAKE_CLIENT_HELLO: u8 = 0x01;

/// The number of the extension `server_name`.
pub const EXT_SERVER_NAME: u16 = 0x0000;

/// The kind of an entry of that extension that is a host name.
pub const NAME_TYPE_HOST: u8 = 0x00;

/// Why no host name could be read.
#[derive(Debug, Clone, Copy, PartialEq, Eq, Structural)]
pub enum TlsError {
    /// This is not a ClientHello.
    NotAClientHello,
    /// The message is valid but cut: it goes on in the next segment.
    Incomplete,
    /// The message is malformed.
    Malformed,
    /// There is no `server_name` extension.
    NoServerName,
}

// ---------------------------------------------------------------------------
// The format
// ---------------------------------------------------------------------------

/// The value of a length field of one or two bytes at the start of `s`.
pub open spec fn length_field(s: Seq<u8>, width: int) -> int {
    if width == 1 {
        s[0] as int
    } else {
        bytes::be16_at(s, 0) as int
    }
}

/// A block with its length before it stands whole at the start of `s`.
pub open spec fn has_block(s: Seq<u8>, width: int) -> bool {
    s.len() >= width && s.len() >= width + length_field(s, width)
}

/// That block.
pub open spec fn block(s: Seq<u8>, width: int) -> Seq<u8> {
    s.subrange(width, width + length_field(s, width))
}

/// What follows that block.
pub open spec fn after_block(s: Seq<u8>, width: int) -> Seq<u8> {
    s.skip(width + length_field(s, width))
}

/// The first host name of a `server_name_list`.
pub open spec fn listed_host(list: Seq<u8>) -> Result<Seq<char>, TlsError>
    decreases list.len(),
{
    if list.len() == 0 {
        Err(TlsError::NoServerName)
    } else if !has_block(list.skip(1), 2) {
        Err(TlsError::Incomplete)
    } else if list[0] != NAME_TYPE_HOST {
        listed_host(after_block(list.skip(1), 2))
    } else if block(list.skip(1), 2).len() == 0 {
        Err(TlsError::Malformed)
    } else {
        Ok(name::escaped(block(list.skip(1), 2)))
    }
}

/// The host name that the body of a `server_name` extension announces.
pub open spec fn extension_host(body: Seq<u8>) -> Result<Seq<char>, TlsError> {
    if has_block(body, 2) {
        listed_host(block(body, 2))
    } else {
        Err(TlsError::Incomplete)
    }
}

/// The host name that the first `server_name` extension of a list announces.
pub open spec fn extensions_host(list: Seq<u8>) -> Result<Seq<char>, TlsError>
    decreases list.len(),
{
    if list.len() == 0 {
        Err(TlsError::NoServerName)
    } else if list.len() < 2 || !has_block(list.skip(2), 2) {
        Err(TlsError::Incomplete)
    } else if bytes::be16_at(list, 0) == EXT_SERVER_NAME {
        extension_host(block(list.skip(2), 2))
    } else {
        extensions_host(after_block(list.skip(2), 2))
    }
}

/// What stands behind the version, the random, the session, the suites and
/// the compression of a ClientHello, if they are whole.
pub open spec fn hello_tail(hello: Seq<u8>) -> Option<Seq<u8>> {
    let session = hello.skip(34);
    let suites = after_block(session, 1);
    let compression = after_block(suites, 2);
    if hello.len() >= 34 && has_block(session, 1) && has_block(suites, 2) && has_block(
        compression,
        1,
    ) {
        Some(after_block(compression, 1))
    } else {
        None
    }
}

/// The host name that the body of a ClientHello announces. One without
/// extensions is valid, and announces none.
#[verifier::opaque]
pub open spec fn hello_host(hello: Seq<u8>) -> Result<Seq<char>, TlsError> {
    match hello_tail(hello) {
        None => Err(TlsError::Incomplete),
        Some(tail) => if tail.len() == 0 {
            Err(TlsError::NoServerName)
        } else if has_block(tail, 2) {
            extensions_host(block(tail, 2))
        } else {
            Err(TlsError::Incomplete)
        },
    }
}

/// The host name that a handshake message announces.
#[verifier::opaque]
pub open spec fn handshake_host(message: Seq<u8>) -> Result<Seq<char>, TlsError> {
    if message.len() == 0 {
        Err(TlsError::Incomplete)
    } else if message[0] != HANDSHAKE_CLIENT_HELLO {
        Err(TlsError::NotAClientHello)
    } else if message.len() < 4 {
        Err(TlsError::Incomplete)
    } else {
        let len = bytes::be24(message[1], message[2], message[3]);
        if message.len() < 4 + len {
            Err(TlsError::Incomplete)
        } else {
            hello_host(message.subrange(4, 4 + len))
        }
    }
}

/// The first record of a stream is there, whole.
pub open spec fn record_complete(stream: Seq<u8>) -> bool {
    stream.len() >= 5 && has_block(stream.skip(3), 2)
}

/// The host name that the start of a TCP stream announces.
pub open spec fn stream_host(stream: Seq<u8>) -> Result<Seq<char>, TlsError> {
    if stream.len() == 0 {
        Err(TlsError::Incomplete)
    } else if stream[0] != RECORD_HANDSHAKE {
        Err(TlsError::NotAClientHello)
    } else if !record_complete(stream) {
        Err(TlsError::Incomplete)
    } else {
        handshake_host(block(stream.skip(3), 2))
    }
}

/// What a result is, its text taken by its characters.
pub open spec fn host_view(r: Result<String, TlsError>) -> Result<Seq<char>, TlsError> {
    match r {
        Ok(host) => Ok(host@),
        Err(e) => Err(e),
    }
}

// ---------------------------------------------------------------------------
// The reader
// ---------------------------------------------------------------------------

/// A cursor on bytes that cannot be trusted.
///
/// A read past the end gives [`TlsError::Incomplete`]: this is the only place
/// of the parser that indexes the data.
pub struct Reader<'a> {
    data: &'a [u8],
    pos: usize,
}

impl<'a> Reader<'a> {
    /// The position is within the data.
    pub closed spec fn wf(&self) -> bool {
        self.pos <= self.data@.len()
    }

    /// What is still to be read.
    pub closed spec fn rest(&self) -> Seq<u8> {
        self.data@.skip(self.pos as int)
    }

    /// A cursor at the start of `data`.
    pub fn new(data: &'a [u8]) -> (r: Self)
        ensures
            r.wf(),
            r.rest() == data@,
    {
        assert(data@.skip(0) =~= data@);
        Reader { data, pos: 0 }
    }

    /// Tells whether everything has been read.
    pub fn is_empty(&self) -> (r: bool)
        requires
            self.wf(),
        ensures
            r == (self.rest().len() == 0),
    {
        self.pos >= self.data.len()
    }

    /// Reads `len` bytes.
    pub fn take(&mut self, len: usize) -> (r: Result<&'a [u8], TlsError>)
        requires
            old(self).wf(),
        ensures
            final(self).wf(),
            match r {
                Ok(part) => {
                    &&& len <= old(self).rest().len()
                    &&& part@ == old(self).rest().take(len as int)
                    &&& final(self).rest() == old(self).rest().skip(len as int)
                },
                Err(e) => {
                    &&& len > old(self).rest().len()
                    &&& e == TlsError::Incomplete
                    &&& final(self).rest() == old(self).rest()
                },
            },
    {
        if len > self.data.len() - self.pos {
            return Err(TlsError::Incomplete);
        }
        let end: usize = self.pos + len;
        let part = slice_subrange(self.data, self.pos, end);
        assert(part@ =~= self.rest().take(len as int));
        assert(self.data@.skip(end as int) =~= self.rest().skip(len as int));
        self.pos = end;
        Ok(part)
    }

    /// Passes over `len` bytes.
    pub fn skip(&mut self, len: usize) -> (r: Result<(), TlsError>)
        requires
            old(self).wf(),
        ensures
            final(self).wf(),
            match r {
                Ok(_) => {
                    &&& len <= old(self).rest().len()
                    &&& final(self).rest() == old(self).rest().skip(len as int)
                },
                Err(e) => {
                    &&& len > old(self).rest().len()
                    &&& e == TlsError::Incomplete
                    &&& final(self).rest() == old(self).rest()
                },
            },
    {
        match self.take(len) {
            Ok(_) => Ok(()),
            Err(e) => Err(e),
        }
    }

    /// Reads one byte.
    pub fn u8(&mut self) -> (r: Result<u8, TlsError>)
        requires
            old(self).wf(),
        ensures
            final(self).wf(),
            match r {
                Ok(n) => {
                    &&& old(self).rest().len() >= 1
                    &&& n == old(self).rest()[0]
                    &&& final(self).rest() == old(self).rest().skip(1)
                },
                Err(e) => {
                    &&& old(self).rest().len() < 1
                    &&& e == TlsError::Incomplete
                    &&& final(self).rest() == old(self).rest()
                },
            },
    {
        match self.take(1) {
            Ok(part) => Ok(part[0]),
            Err(e) => Err(e),
        }
    }

    /// Reads a number of two bytes.
    pub fn u16(&mut self) -> (r: Result<u16, TlsError>)
        requires
            old(self).wf(),
        ensures
            final(self).wf(),
            match r {
                Ok(n) => {
                    &&& old(self).rest().len() >= 2
                    &&& n == bytes::be16_at(old(self).rest(), 0)
                    &&& final(self).rest() == old(self).rest().skip(2)
                },
                Err(e) => {
                    &&& old(self).rest().len() < 2
                    &&& e == TlsError::Incomplete
                    &&& final(self).rest() == old(self).rest()
                },
            },
    {
        match self.take(2) {
            Ok(part) => Ok(bytes::join16(part[0], part[1])),
            Err(e) => Err(e),
        }
    }

    /// Reads a number of three bytes.
    pub fn u24(&mut self) -> (r: Result<usize, TlsError>)
        requires
            old(self).wf(),
        ensures
            final(self).wf(),
            match r {
                Ok(n) => {
                    &&& old(self).rest().len() >= 3
                    &&& n == bytes::be24(
                        old(self).rest()[0],
                        old(self).rest()[1],
                        old(self).rest()[2],
                    )
                    &&& final(self).rest() == old(self).rest().skip(3)
                },
                Err(e) => {
                    &&& old(self).rest().len() < 3
                    &&& e == TlsError::Incomplete
                    &&& final(self).rest() == old(self).rest()
                },
            },
    {
        match self.take(3) {
            Ok(part) => Ok(
                part[0] as usize * 65536 + part[1] as usize * 256 + part[2] as usize,
            ),
            Err(e) => Err(e),
        }
    }
}

/// The host name announced by a ClientHello.
///
/// `stream` is the start of the client's TCP data. The error
/// [`TlsError::Incomplete`] tells that the next segment has to be waited for:
/// with post-quantum key exchanges a ClientHello often exceeds the MTU and
/// comes in two pieces.
pub fn server_name(stream: &[u8]) -> (r: Result<String, TlsError>)
    ensures
        host_view(r) == stream_host(stream@),
{
    let mut reader = Reader::new(stream);
    if reader.u8()? != RECORD_HANDSHAKE {
        return Err(TlsError::NotAClientHello);
    }
    reader.skip(2)?;  // the version of the record, which says nothing here
    assert(reader.rest() =~= stream@.skip(3));
    let record_len: usize = reader.u16()? as usize;
    let record_bytes = reader.take(record_len)?;
    assert(record_bytes@ =~= block(stream@.skip(3), 2));
    handshake_name(record_bytes)
}

/// The host name announced by a handshake message.
pub fn handshake_name(message: &[u8]) -> (r: Result<String, TlsError>)
    ensures
        host_view(r) == handshake_host(message@),
{
    proof {
        reveal(handshake_host);
    }
    let mut record = Reader::new(message);
    if record.u8()? != HANDSHAKE_CLIENT_HELLO {
        return Err(TlsError::NotAClientHello);
    }
    let handshake_len: usize = record.u24()?;
    assert(record.rest() =~= message@.skip(4));
    let hello_bytes = record.take(handshake_len)?;
    assert(hello_bytes@ =~= message@.subrange(4, 4 + handshake_len));
    hello_name(hello_bytes)
}

/// The host name announced by the body of a ClientHello.
pub fn hello_name(body: &[u8]) -> (r: Result<String, TlsError>)
    ensures
        host_view(r) == hello_host(body@),
{
    proof {
        reveal(hello_host);
    }
    let mut hello = Reader::new(body);
    hello.skip(34)?;  // the announced version, then the client's random
    let ghost session = hello.rest();
    let session_id: usize = hello.u8()? as usize;
    hello.skip(session_id)?;
    assert(hello.rest() =~= after_block(session, 1));
    let ghost suites = hello.rest();
    let cipher_suites: usize = hello.u16()? as usize;
    hello.skip(cipher_suites)?;
    assert(hello.rest() =~= after_block(suites, 2));
    let ghost methods = hello.rest();
    let compression: usize = hello.u8()? as usize;
    hello.skip(compression)?;
    assert(hello.rest() =~= after_block(methods, 1));
    assert(hello_tail(body@) == Some(hello.rest()));

    // A ClientHello without extensions is valid (TLS 1.0): no SNI.
    if hello.is_empty() {
        return Err(TlsError::NoServerName);
    }
    let ghost tail = hello.rest();
    let extensions_len: usize = hello.u16()? as usize;
    let extension_bytes = hello.take(extensions_len)?;
    assert(extension_bytes@ =~= block(tail, 2));
    let mut extensions = Reader::new(extension_bytes);

    while !extensions.is_empty()
        invariant
            extensions.wf(),
            hello_host(body@) == extensions_host(extensions.rest()),
        decreases extensions.rest().len(),
    {
        let ghost list = extensions.rest();
        let ext_type: u16 = extensions.u16()?;
        let ext_len: usize = extensions.u16()? as usize;
        let extension = extensions.take(ext_len)?;
        assert(extension@ =~= block(list.skip(2), 2));
        assert(extensions.rest() =~= after_block(list.skip(2), 2));
        if ext_type == EXT_SERVER_NAME {
            return host_name(extension);
        }
    }
    Err(TlsError::NoServerName)
}

/// Reads a `server_name_list` and gives its first host name.
pub fn host_name(extension: &[u8]) -> (r: Result<String, TlsError>)
    ensures
        host_view(r) == extension_host(extension@),
{
    let mut reader = Reader::new(extension);
    let list_len: usize = reader.u16()? as usize;
    let list_bytes = reader.take(list_len)?;
    assert(list_bytes@ =~= block(extension@, 2));
    let mut list = Reader::new(list_bytes);

    while !list.is_empty()
        invariant
            list.wf(),
            extension_host(extension@) == listed_host(list.rest()),
        decreases list.rest().len(),
    {
        let ghost entries = list.rest();
        let name_type: u8 = list.u8()?;
        let len: usize = list.u16()? as usize;
        let value = list.take(len)?;
        assert(value@ =~= block(entries.skip(1), 2));
        assert(list.rest() =~= after_block(entries.skip(1), 2));
        if name_type == NAME_TYPE_HOST {
            if value.len() == 0 {
                return Err(TlsError::Malformed);
            }
            return Ok(name::escape(value));
        }
    }
    Err(TlsError::NoServerName)
}

// ---------------------------------------------------------------------------
// Laws
// ---------------------------------------------------------------------------

/// Once its first record is whole, what follows in the stream changes nothing.
pub proof fn law_complete_record_decides(stream: Seq<u8>, more: Seq<u8>)
    requires
        record_complete(stream),
    ensures
        stream_host(stream + more) == stream_host(stream),
{
    let longer = stream + more;
    assert(longer[3] == stream[3] && longer[4] == stream[4]);
    assert(block(longer.skip(3), 2) =~= block(stream.skip(3), 2));
}

/// An answer other than "wait for the next segment" is final: no later
/// segment changes it.
pub proof fn law_verdict_is_final(stream: Seq<u8>, more: Seq<u8>)
    requires
        stream_host(stream) != Err::<Seq<char>, _>(TlsError::Incomplete),
    ensures
        stream_host(stream + more) == stream_host(stream),
{
    if stream[0] == RECORD_HANDSHAKE {
        law_complete_record_decides(stream, more);
    } else {
        assert((stream + more)[0] == stream[0]);
    }
}

/// A ClientHello that was cut asks for more, wherever the cut is: never a
/// truncated name, and no other error. From the end of its record on, the name
/// is the one of the whole stream.
pub proof fn law_cut_hello_asks_for_more(stream: Seq<u8>, cut: int)
    requires
        stream_host(stream) is Ok,
        0 <= cut <= stream.len(),
    ensures
        cut < 5 + length_field(stream.skip(3), 2) ==> stream_host(stream.take(cut)) == Err::<
            Seq<char>,
            _,
        >(TlsError::Incomplete),
        cut >= 5 + length_field(stream.skip(3), 2) ==> stream_host(stream.take(cut))
            == stream_host(stream),
{
    let part = stream.take(cut);
    let end = 5 + length_field(stream.skip(3), 2);
    if cut >= 5 {
        assert(part.skip(3)[0] == stream.skip(3)[0] && part.skip(3)[1] == stream.skip(3)[1]);
    }
    if cut >= end {
        assert(record_complete(part));
        law_complete_record_decides(part, stream.skip(cut));
        assert(part + stream.skip(cut) =~= stream);
    } else {
        assert(!record_complete(part));
        assert(cut > 0 ==> part[0] == stream[0]);
    }
}

/// Whatever the stream holds, the name read of it is made of visible ASCII.
pub proof fn law_host_is_visible(stream: Seq<u8>)
    ensures
        stream_host(stream) matches Ok(host) ==> name::all_visible(host),
{
    let message = block(stream.skip(3), 2);
    reveal(handshake_host);
    reveal(hello_host);
    let len = bytes::be24(message[1], message[2], message[3]);
    if let Some(tail) = hello_tail(message.subrange(4, 4 + len)) {
        lemma_extensions_visible(block(tail, 2));
    }
}

/// The name that a list of extensions announces is visible ASCII.
proof fn lemma_extensions_visible(list: Seq<u8>)
    ensures
        extensions_host(list) matches Ok(host) ==> name::all_visible(host),
    decreases list.len(),
{
    if list.len() >= 2 && has_block(list.skip(2), 2) {
        if bytes::be16_at(list, 0) == EXT_SERVER_NAME {
            lemma_listed_visible(block(block(list.skip(2), 2), 2));
        } else {
            lemma_extensions_visible(after_block(list.skip(2), 2));
        }
    }
}

/// The name that a `server_name_list` holds is visible ASCII.
proof fn lemma_listed_visible(list: Seq<u8>)
    ensures
        listed_host(list) matches Ok(host) ==> name::all_visible(host),
    decreases list.len(),
{
    if list.len() > 0 && has_block(list.skip(1), 2) {
        if list[0] != NAME_TYPE_HOST {
            lemma_listed_visible(after_block(list.skip(1), 2));
        } else {
            name::law_escaped_is_visible(block(list.skip(1), 2));
        }
    }
}

/// A block with its length before it, on one or two bytes.
pub open spec fn framed(body: Seq<u8>, width: int) -> Seq<u8> {
    if width == 1 {
        seq![body.len() as u8] + body
    } else {
        bytes::be16_bytes(body.len() as int) + body
    }
}

/// A list of extensions.
pub open spec fn extension_bytes(list: Seq<(u16, Seq<u8>)>) -> Seq<u8>
    decreases list.len(),
{
    if list.len() == 0 {
        Seq::empty()
    } else {
        bytes::be16_bytes(list[0].0 as int) + framed(list[0].1, 2) + extension_bytes(list.skip(1))
    }
}

/// A list of extensions in which `host` is announced behind `others`.
pub open spec fn extensions_announcing(
    others: Seq<(u16, Seq<u8>)>,
    host: Seq<u8>,
    more: Seq<u8>,
) -> Seq<u8> {
    extension_bytes(others) + (bytes::be16_bytes(0) + framed(framed(seq![0u8] + framed(host, 2), 2), 2)
        + more)
}

/// The body of a ClientHello.
pub open spec fn hello_bytes(
    start: Seq<u8>,
    session: Seq<u8>,
    suites: Seq<u8>,
    methods: Seq<u8>,
    extensions: Seq<u8>,
) -> Seq<u8> {
    start + (framed(session, 1) + (framed(suites, 2) + (framed(methods, 1) + framed(
        extensions,
        2,
    ))))
}

/// A handshake message that is a ClientHello with this body.
pub open spec fn message_bytes(hello: Seq<u8>) -> Seq<u8> {
    seq![
        1u8,
        (hello.len() / 65536) as u8,
        (hello.len() / 256 % 256) as u8,
        (hello.len() % 256) as u8,
    ] + hello
}

/// The start of a TCP stream whose first record is this handshake message.
pub open spec fn stream_bytes(version: Seq<u8>, message: Seq<u8>, more: Seq<u8>) -> Seq<u8> {
    (seq![0x16u8] + version) + (framed(message, 2) + more)
}

/// A framed block is read back, and what follows it is left.
proof fn lemma_framed(body: Seq<u8>, width: int, rest: Seq<u8>)
    requires
        width == 1 ==> body.len() < 256,
        width == 2 ==> body.len() < 65536,
        width == 1 || width == 2,
    ensures
        has_block(framed(body, width) + rest, width),
        block(framed(body, width) + rest, width) == body,
        after_block(framed(body, width) + rest, width) == rest,
{
    let s = framed(body, width) + rest;
    assert(length_field(s, width) == body.len());
    assert(block(s, width) =~= body);
    assert(after_block(s, width) =~= rest);
}

/// The host announced behind other extensions is found.
proof fn lemma_extensions_announcing(
    others: Seq<(u16, Seq<u8>)>,
    host: Seq<u8>,
    more: Seq<u8>,
)
    requires
        forall|i: int|
            0 <= i < others.len() ==> (#[trigger] others[i]).0 != EXT_SERVER_NAME
                && others[i].1.len() < 65536,
        0 < host.len() < 65531,
    ensures
        extensions_host(extensions_announcing(others, host, more)) == Ok::<Seq<char>, TlsError>(
            name::escaped(host),
        ),
    decreases others.len(),
{
    let list = extensions_announcing(others, host, more);
    if others.len() == 0 {
        let entry = seq![0u8] + framed(host, 2);
        let body = framed(entry, 2);
        assert(list =~= bytes::be16_bytes(0) + (framed(body, 2) + more));
        assert(list.skip(2) =~= framed(body, 2) + more);
        assert(bytes::be16_at(list, 0) == 0);
        lemma_framed(body, 2, more);
        lemma_framed(entry, 2, Seq::empty());
        assert(body + Seq::<u8>::empty() =~= body);
        assert(entry.skip(1) =~= framed(host, 2) + Seq::<u8>::empty());
        lemma_framed(host, 2, Seq::empty());
    } else {
        let kind = others[0].0;
        let body = others[0].1;
        let next = extensions_announcing(others.skip(1), host, more);
        assert(list =~= bytes::be16_bytes(kind as int) + (framed(body, 2) + next));
        assert(list.skip(2) =~= framed(body, 2) + next);
        assert(bytes::be16_at(list, 0) == kind);
        lemma_framed(body, 2, next);
        assert forall|i: int| 0 <= i < others.skip(1).len() implies (#[trigger] others.skip(
            1,
        )[i]).0 != EXT_SERVER_NAME && others.skip(1)[i].1.len() < 65536 by {
            assert(others.skip(1)[i] == others[i + 1]);
        }
        lemma_extensions_announcing(others.skip(1), host, more);
    }
}

/// What stands behind the session of a ClientHello is found.
proof fn lemma_hello_session(hello: Seq<u8>, start: Seq<u8>, session: Seq<u8>, rest: Seq<u8>)
    requires
        start.len() == 34,
        session.len() < 256,
        hello == start + (framed(session, 1) + rest),
    ensures
        hello.len() >= 34,
        has_block(hello.skip(34), 1),
        after_block(hello.skip(34), 1) == rest,
{
    assert(hello.skip(34) =~= framed(session, 1) + rest);
    lemma_framed(session, 1, rest);
}

/// What stands behind the compression of a ClientHello is found.
proof fn lemma_hello_tail(
    start: Seq<u8>,
    session: Seq<u8>,
    suites: Seq<u8>,
    methods: Seq<u8>,
    last: Seq<u8>,
)
    requires
        start.len() == 34,
        session.len() < 256,
        suites.len() < 65536,
        methods.len() < 256,
    ensures
        hello_tail(start + (framed(session, 1) + (framed(suites, 2) + (framed(methods, 1) + last))))
            == Some(last),
{
    let after_methods = framed(methods, 1) + last;
    let after_suites = framed(suites, 2) + after_methods;
    lemma_hello_session(start + (framed(session, 1) + after_suites), start, session, after_suites);
    lemma_framed(suites, 2, after_methods);
    lemma_framed(methods, 1, last);
}

/// A tail that is a framed list of extensions announces what they announce.
proof fn lemma_hello_extensions(hello: Seq<u8>, extensions: Seq<u8>)
    requires
        extensions.len() < 65536,
        hello_tail(hello) == Some(framed(extensions, 2)),
    ensures
        hello_host(hello) == extensions_host(extensions),
{
    reveal(hello_host);
    let last = framed(extensions, 2);
    lemma_framed(extensions, 2, Seq::empty());
    assert(last + Seq::<u8>::empty() =~= last);
}

/// A ClientHello announces what its extensions announce.
proof fn lemma_hello_layer(
    start: Seq<u8>,
    session: Seq<u8>,
    suites: Seq<u8>,
    methods: Seq<u8>,
    extensions: Seq<u8>,
)
    requires
        start.len() == 34,
        session.len() < 256,
        suites.len() < 65536,
        methods.len() < 256,
        extensions.len() < 65536,
    ensures
        hello_host(hello_bytes(start, session, suites, methods, extensions)) == extensions_host(
            extensions,
        ),
{
    lemma_hello_tail(start, session, suites, methods, framed(extensions, 2));
    lemma_hello_extensions(
        hello_bytes(start, session, suites, methods, extensions),
        extensions,
    );
}

/// A ClientHello is longer than its extensions.
proof fn lemma_hello_longer(
    start: Seq<u8>,
    session: Seq<u8>,
    suites: Seq<u8>,
    methods: Seq<u8>,
    extensions: Seq<u8>,
)
    ensures
        hello_bytes(start, session, suites, methods, extensions).len() > extensions.len(),
{
}

/// Three bytes hold the length of a message.
proof fn lemma_be24(n: nat)
    requires
        n < 65536,
    ensures
        bytes::be24((n / 65536) as u8, (n / 256 % 256) as u8, (n % 256) as u8) == n,
{
    assert(n / 65536 == 0);
    assert(n / 256 < 256);
}

/// A handshake message announces what its body announces.
proof fn lemma_message_layer(hello: Seq<u8>)
    requires
        hello.len() < 65536,
    ensures
        handshake_host(message_bytes(hello)) == hello_host(hello),
{
    reveal(handshake_host);
    let message = message_bytes(hello);
    lemma_be24(hello.len());
    assert(message.len() == 4 + hello.len());
    assert(message[0] == HANDSHAKE_CLIENT_HELLO);
    assert(message.subrange(4, 4 + hello.len() as int) =~= hello);
}

/// A stream announces what the message of its first record announces.
proof fn lemma_stream_layer(version: Seq<u8>, message: Seq<u8>, more: Seq<u8>)
    requires
        version.len() == 2,
        message.len() < 65536,
    ensures
        stream_host(stream_bytes(version, message, more)) == handshake_host(message),
{
    let stream = stream_bytes(version, message, more);
    assert(stream.skip(3) =~= framed(message, 2) + more);
    lemma_framed(message, 2, more);
}

/// The host name that a ClientHello announces is the one that is read,
/// whatever else the message carries and whatever follows it.
pub proof fn law_announced_host_is_read(
    version: Seq<u8>,
    start: Seq<u8>,
    session: Seq<u8>,
    suites: Seq<u8>,
    methods: Seq<u8>,
    others: Seq<(u16, Seq<u8>)>,
    host: Seq<u8>,
    more_extensions: Seq<u8>,
    more: Seq<u8>,
)
    requires
        version.len() == 2,
        start.len() == 34,
        session.len() < 256,
        suites.len() < 65536,
        methods.len() < 256,
        forall|i: int|
            0 <= i < others.len() ==> (#[trigger] others[i]).0 != 0 && others[i].1.len() < 65536,
        host.len() > 0,
        message_bytes(
            hello_bytes(
                start,
                session,
                suites,
                methods,
                extensions_announcing(others, host, more_extensions),
            ),
        ).len() < 65536,
    ensures
        stream_host(
            stream_bytes(
                version,
                message_bytes(
                    hello_bytes(
                        start,
                        session,
                        suites,
                        methods,
                        extensions_announcing(others, host, more_extensions),
                    ),
                ),
                more,
            ),
        ) == Ok::<Seq<char>, TlsError>(name::escaped(host)),
{
    let extensions = extensions_announcing(others, host, more_extensions);
    let hello = hello_bytes(start, session, suites, methods, extensions);
    let message = message_bytes(hello);
    assert(message.len() == hello.len() + 4);
    lemma_hello_longer(start, session, suites, methods, extensions);
    lemma_hello_layer(start, session, suites, methods, extensions);
    lemma_message_layer(hello);
    lemma_stream_layer(version, message, more);
    assert(host.len() < extensions.len());
    lemma_extensions_announcing(others, host, more_extensions);
}

/// Entries of a `server_name_list`: each has its kind, and its body with the
/// length before it.
pub open spec fn entry_bytes(list: Seq<(u8, Seq<u8>)>) -> Seq<u8>
    decreases list.len(),
{
    if list.len() == 0 {
        Seq::empty()
    } else {
        seq![list[0].0] + framed(list[0].1, 2) + entry_bytes(list.skip(1))
    }
}

/// The first host name of a list is read, behind entries of any other kinds
/// and whatever follows it. A list without one announces none, and an empty
/// host name is malformed.
pub proof fn law_first_host_of_a_list_is_read(
    others: Seq<(u8, Seq<u8>)>,
    host: Seq<u8>,
    more: Seq<u8>,
)
    requires
        forall|i: int|
            0 <= i < others.len() ==> (#[trigger] others[i]).0 != 0 && others[i].1.len() < 65536,
        host.len() < 65536,
    ensures
        listed_host(entry_bytes(others)) == Err::<Seq<char>, _>(TlsError::NoServerName),
        listed_host(entry_bytes(others) + (seq![0u8] + framed(host, 2) + more)) == (if host.len()
            > 0 {
            Ok(name::escaped(host))
        } else {
            Err(TlsError::Malformed)
        }),
    decreases others.len(),
{
    let last = seq![0u8] + framed(host, 2) + more;
    let list = entry_bytes(others) + last;
    if others.len() == 0 {
        assert(list =~= last);
        assert(list.skip(1) =~= framed(host, 2) + more);
        lemma_framed(host, 2, more);
    } else {
        let body = others[0].1;
        let rest = others.skip(1);
        assert forall|i: int| 0 <= i < rest.len() implies (#[trigger] rest[i]).0 != 0
            && rest[i].1.len() < 65536 by {
            assert(rest[i] == others[i + 1]);
        }
        assert(others[0].0 != 0);
        law_first_host_of_a_list_is_read(rest, host, more);
        let next = entry_bytes(rest) + last;
        assert(list.skip(1) =~= framed(body, 2) + next);
        assert(entry_bytes(others).skip(1) =~= framed(body, 2) + entry_bytes(rest));
        lemma_framed(body, 2, next);
        lemma_framed(body, 2, entry_bytes(rest));
    }
}

/// Extensions of other kinds announce no host.
proof fn lemma_extensions_without_host(others: Seq<(u16, Seq<u8>)>)
    requires
        forall|i: int|
            0 <= i < others.len() ==> (#[trigger] others[i]).0 != 0 && others[i].1.len() < 65536,
    ensures
        extensions_host(extension_bytes(others)) == Err::<Seq<char>, _>(TlsError::NoServerName),
    decreases others.len(),
{
    if others.len() > 0 {
        let list = extension_bytes(others);
        let kind = others[0].0;
        let body = others[0].1;
        let rest = others.skip(1);
        assert forall|i: int| 0 <= i < rest.len() implies (#[trigger] rest[i]).0 != 0
            && rest[i].1.len() < 65536 by {
            assert(rest[i] == others[i + 1]);
        }
        lemma_extensions_without_host(rest);
        assert(others[0].0 != 0);
        assert(list.skip(2) =~= framed(body, 2) + extension_bytes(rest));
        assert(list[0] == (kind / 256) as u8 && list[1] == (kind % 256) as u8);
        assert(bytes::be16_at(list, 0) == kind);
        lemma_framed(body, 2, extension_bytes(rest));
    }
}

/// A whole ClientHello that announces no host is told from one that is cut:
/// whatever other extensions it has, or where it has none at all.
pub proof fn law_hello_without_a_host_announces_none(
    version: Seq<u8>,
    start: Seq<u8>,
    session: Seq<u8>,
    suites: Seq<u8>,
    methods: Seq<u8>,
    others: Seq<(u16, Seq<u8>)>,
    more: Seq<u8>,
)
    requires
        version.len() == 2,
        start.len() == 34,
        session.len() < 256,
        suites.len() < 65536,
        methods.len() < 256,
        forall|i: int|
            0 <= i < others.len() ==> (#[trigger] others[i]).0 != 0 && others[i].1.len() < 65536,
        hello_bytes(start, session, suites, methods, extension_bytes(others)).len() + 4 < 65536,
    ensures
        stream_host(
            stream_bytes(
                version,
                message_bytes(
                    hello_bytes(start, session, suites, methods, extension_bytes(others)),
                ),
                more,
            ),
        ) == Err::<Seq<char>, _>(TlsError::NoServerName),
        hello_host(
            start + (framed(session, 1) + (framed(suites, 2) + (framed(methods, 1)
                + Seq::<u8>::empty()))),
        ) == Err::<Seq<char>, _>(TlsError::NoServerName),
{
    let extensions = extension_bytes(others);
    let hello = hello_bytes(start, session, suites, methods, extensions);
    let message = message_bytes(hello);
    lemma_hello_longer(start, session, suites, methods, extensions);
    lemma_hello_layer(start, session, suites, methods, extensions);
    lemma_message_layer(hello);
    lemma_stream_layer(version, message, more);
    lemma_extensions_without_host(others);
    lemma_hello_tail(start, session, suites, methods, Seq::empty());
    reveal(hello_host);
}

/// A stream that starts with another kind of record, and a record that starts
/// with another kind of message, are no ClientHello; of nothing nothing can be
/// said yet.
pub proof fn law_other_streams_are_no_hello(
    stream: Seq<u8>,
    version: Seq<u8>,
    message: Seq<u8>,
    more: Seq<u8>,
)
    requires
        version.len() == 2,
        message.len() < 65536,
    ensures
        stream.len() == 0 ==> stream_host(stream) == Err::<Seq<char>, _>(TlsError::Incomplete),
        stream.len() > 0 && stream[0] != 0x16 ==> stream_host(stream) == Err::<Seq<char>, _>(
            TlsError::NotAClientHello,
        ),
        message.len() > 0 && message[0] != 1 ==> stream_host(stream_bytes(version, message, more))
            == Err::<Seq<char>, _>(TlsError::NotAClientHello),
        message.len() == 0 ==> stream_host(stream_bytes(version, message, more)) == Err::<
            Seq<char>,
            _,
        >(TlsError::Incomplete),
{
    reveal(handshake_host);
    lemma_stream_layer(version, message, more);
}

/// A message is as long as its three bytes say, all of them: what follows it
/// does not count, and where it is not all there, more is asked for.
pub proof fn law_message_is_as_long_as_it_says(hi: u8, mid: u8, lo: u8, body: Seq<u8>)
    ensures
        handshake_host(seq![1u8, hi, mid, lo] + body) == (if hi * 65536 + mid * 256 + lo
            <= body.len() {
            hello_host(body.take(hi * 65536 + mid * 256 + lo))
        } else {
            Err(TlsError::Incomplete)
        }),
{
    reveal(handshake_host);
    let message = seq![1u8, hi, mid, lo] + body;
    let len = hi * 65536 + mid * 256 + lo;
    if len <= body.len() {
        assert(message.subrange(4, 4 + len) =~= body.take(len));
    }
}

/// A block that is cut is not there; one that is whole is, with what is left of
/// what follows it.
proof fn lemma_framed_cut(body: Seq<u8>, width: int, rest: Seq<u8>, cut: int)
    requires
        width == 1 ==> body.len() < 256,
        width == 2 ==> body.len() < 65536,
        width == 1 || width == 2,
        0 <= cut <= width + body.len() + rest.len(),
    ensures
        has_block((framed(body, width) + rest).take(cut), width) <==> cut >= width + body.len(),
        cut >= width + body.len() ==> after_block((framed(body, width) + rest).take(cut), width)
            == rest.take(cut - width - body.len()),
{
    let s = framed(body, width) + rest;
    let part = s.take(cut);
    if cut >= width {
        assert(part[0] == s[0]);
        assert(width == 2 ==> part[1] == s[1]);
        assert(length_field(part, width) == body.len());
        if cut >= width + body.len() {
            assert(after_block(part, width) =~= rest.take(cut - width - body.len()));
        }
    }
}

/// What stands behind the compression of a ClientHello that is cut.
proof fn lemma_tail_cut(
    start: Seq<u8>,
    session: Seq<u8>,
    suites: Seq<u8>,
    methods: Seq<u8>,
    last: Seq<u8>,
    cut: int,
)
    requires
        start.len() == 34,
        session.len() < 256,
        suites.len() < 65536,
        methods.len() < 256,
        0 <= cut <= 38 + session.len() + suites.len() + methods.len() + last.len(),
    ensures
        hello_tail(
            (start + (framed(session, 1) + (framed(suites, 2) + (framed(methods, 1) + last)))).take(
                cut,
            ),
        ) == (if cut >= 38 + session.len() + suites.len() + methods.len() {
            Some(last.take(cut - 38 - session.len() - suites.len() - methods.len()))
        } else {
            None
        }),
{
    let from_methods = framed(methods, 1) + last;
    let from_suites = framed(suites, 2) + from_methods;
    let from_session = framed(session, 1) + from_suites;
    let hello = start + from_session;
    let part = hello.take(cut);
    if cut >= 34 {
        assert(part.skip(34) =~= from_session.take(cut - 34));
        lemma_framed_cut(session, 1, from_suites, cut - 34);
        let at_suites = cut - 35 - session.len();
        if at_suites >= 0 {
            lemma_framed_cut(suites, 2, from_methods, at_suites);
            let at_methods = at_suites - 2 - suites.len();
            if at_methods >= 0 {
                lemma_framed_cut(methods, 1, last, at_methods);
            }
        }
    }
}

/// A ClientHello whose body is cut asks for more, wherever the cut is but
/// before its extensions: there it is whole, without a host.
pub proof fn law_cut_body_asks_for_more(
    start: Seq<u8>,
    session: Seq<u8>,
    suites: Seq<u8>,
    methods: Seq<u8>,
    extensions: Seq<u8>,
    cut: int,
)
    requires
        start.len() == 34,
        session.len() < 256,
        suites.len() < 65536,
        methods.len() < 256,
        extensions.len() < 65536,
        0 <= cut < 40 + session.len() + suites.len() + methods.len() + extensions.len(),
    ensures
        hello_host(hello_bytes(start, session, suites, methods, extensions).take(cut)) == Err::<
            Seq<char>,
            _,
        >(
            if cut == 38 + session.len() + suites.len() + methods.len() {
                TlsError::NoServerName
            } else {
                TlsError::Incomplete
            },
        ),
{
    reveal(hello_host);
    let last = framed(extensions, 2);
    let none = Seq::<u8>::empty();
    lemma_tail_cut(start, session, suites, methods, last, cut);
    let left = cut - 38 - session.len() - suites.len() - methods.len();
    if left >= 0 {
        lemma_framed_cut(extensions, 2, none, left);
        assert(last + none =~= last);
    }
}

} // verus!
