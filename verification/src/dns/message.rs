//! Reading a DNS query (RFC 1035), and making the refusal it is answered.
//!
//! Only what matters is read: the identifier, and the name of the first
//! question. The rest of the packet goes upstream as it came.
//!
//! ```text
//! 0      2      4        6      8     10     12
//! | ID   |flags |QDCOUNT|ANCOUNT|NSCOUNT|ARCOUNT|  header, 12 bytes
//! | QNAME...                   |QTYPE |QCLASS|    first question
//! ```
//!
//! A QNAME is a run of labels, each with its length before it, ended by a zero
//! byte: `\x07example\x03com\x00` is `example.com`.

use vstd::prelude::*;
use vstd::slice::slice_subrange;

use crate::bytes;
use crate::name;

verus! {

/// The size of a DNS header, in bytes.
pub const HEADER_LEN: usize = 12;

/// The longest name that the RFC allows, in bytes.
pub const MAX_NAME_LEN: usize = 255;

/// How many compression pointers are followed, against those that loop.
pub const MAX_POINTERS: usize = 8;

/// The response code "this name does not exist".
pub const RCODE_NXDOMAIN: u8 = 3;

/// What was read of a query.
#[derive(Debug, Clone, PartialEq, Eq)]
pub struct Query {
    /// The identifier chosen by the client, sent back as it is.
    pub id: u16,
    /// The name asked for, escaped so that it can be shown.
    pub name: String,
    /// The type asked for (1 = A, 28 = AAAA, 65 = HTTPS...).
    pub qtype: u16,
}

/// The ways in which a packet can fail to be a usable query.
#[derive(Debug, Clone, Copy, PartialEq, Eq, Structural)]
pub enum ParseError {
    /// The packet is shorter than a header: its size.
    TooShort(usize),
    /// The packet is a response.
    NotAQuery,
    /// The packet asks no question.
    NoQuestion,
    /// The packet is cut.
    UnexpectedEnd,
    /// The name exceeds [`MAX_NAME_LEN`] bytes.
    NameTooLong,
    /// More than [`MAX_POINTERS`] compression pointers: a loop, most likely.
    TooManyPointers,
    /// A label of a reserved kind.
    ReservedLabel(u8),
}

// ---------------------------------------------------------------------------
// Names
// ---------------------------------------------------------------------------

/// What a byte of a label becomes: a dot gets a backslash, so that it is not
/// taken for the border of two labels.
pub open spec fn label_byte(b: u8) -> Seq<char> {
    if b == 46 {
        seq!['\\', '.']
    } else {
        name::escaped_byte(b)
    }
}

/// What a label becomes.
pub open spec fn label_text(label: Seq<u8>) -> Seq<char>
    decreases label.len(),
{
    if label.len() == 0 {
        Seq::empty()
    } else {
        label_text(label.drop_last()) + label_byte(label.last())
    }
}

/// Labels with a dot between each two.
pub open spec fn dotted(labels: Seq<Seq<u8>>) -> Seq<char>
    decreases labels.len(),
{
    if labels.len() == 0 {
        Seq::empty()
    } else if labels.len() == 1 {
        label_text(labels[0])
    } else {
        dotted(labels.drop_last()).push('.') + label_text(labels.last())
    }
}

/// The text of a name: its labels, or a dot for the root.
pub open spec fn name_text(labels: Seq<Seq<u8>>) -> Seq<char> {
    if labels.len() == 0 {
        seq!['.']
    } else {
        dotted(labels)
    }
}

/// The labels of the name at `pos`, and the position behind the name.
///
/// `used` bytes of name have been read before, through `jumps` pointers. A
/// pointer leads elsewhere in the packet; the name then ends, where it was
/// called from, behind the pointer.
pub open spec fn labels_at(packet: Seq<u8>, pos: int, used: int, jumps: int) -> Result<
    (Seq<Seq<u8>>, int),
    ParseError,
>
    decreases MAX_POINTERS - jumps, packet.len() - pos,
{
    if pos < 0 || pos >= packet.len() {
        Err(ParseError::UnexpectedEnd)
    } else {
        let len = packet[pos] as int;
        if len == 0 {
            Ok((Seq::empty(), pos + 1))
        } else if len < 0x40 {
            if used + len + 1 > MAX_NAME_LEN {
                Err(ParseError::NameTooLong)
            } else if pos + 1 + len > packet.len() {
                Err(ParseError::UnexpectedEnd)
            } else {
                match labels_at(packet, pos + 1 + len, used + len + 1, jumps) {
                    Ok((labels, end)) => Ok(
                        (seq![packet.subrange(pos + 1, pos + 1 + len)] + labels, end),
                    ),
                    Err(e) => Err(e),
                }
            }
        } else if len >= 0xc0 {
            if pos + 1 >= packet.len() {
                Err(ParseError::UnexpectedEnd)
            } else if jumps >= MAX_POINTERS {
                Err(ParseError::TooManyPointers)
            } else {
                match labels_at(packet, (len - 0xc0) * 256 + packet[pos + 1], used, jumps + 1) {
                    Ok((labels, _)) => Ok((labels, pos + 2)),
                    Err(e) => Err(e),
                }
            }
        } else {
            Err(ParseError::ReservedLabel(packet[pos]))
        }
    }
}

/// Where the first question stands and what it asks: the labels of its name,
/// and the position behind the name.
pub open spec fn question(packet: Seq<u8>) -> Result<(Seq<Seq<u8>>, int), ParseError> {
    if packet.len() < HEADER_LEN {
        Err(ParseError::TooShort(packet.len() as usize))
    } else if packet[2] >= 0x80 {
        Err(ParseError::NotAQuery)
    } else if bytes::be16_at(packet, 4) == 0 {
        Err(ParseError::NoQuestion)
    } else {
        labels_at(packet, HEADER_LEN as int, 0, 0)
    }
}

/// The identifier, the name and the type of the first question of a packet.
pub open spec fn query_of(packet: Seq<u8>) -> Result<(u16, Seq<char>, u16), ParseError> {
    match question(packet) {
        Err(e) => Err(e),
        Ok((labels, end)) => if end + 2 > packet.len() {
            Err(ParseError::UnexpectedEnd)
        } else {
            Ok((bytes::be16_at(packet, 0), name_text(labels), bytes::be16_at(packet, end)))
        },
    }
}

/// What a result is, its text taken by its characters.
pub open spec fn query_view(r: Result<Query, ParseError>) -> Result<
    (u16, Seq<char>, u16),
    ParseError,
> {
    match r {
        Ok(q) => Ok((q.id, q.name@, q.qtype)),
        Err(e) => Err(e),
    }
}

// ---------------------------------------------------------------------------
// Reading
// ---------------------------------------------------------------------------

/// The first question of a DNS packet.
///
/// `packet` is the raw datagram: nothing in it is trusted, each access is
/// bounded.
pub fn parse_query(packet: &[u8]) -> (r: Result<Query, ParseError>)
    ensures
        query_view(r) == query_of(packet@),
{
    match locate_question(packet) {
        Err(e) => Err(e),
        Ok((name, after_name)) => {
            if packet.len() - after_name < 2 {
                return Err(ParseError::UnexpectedEnd);
            }
            Ok(
                Query {
                    id: be_u16(packet, 0),
                    name,
                    qtype: be_u16(packet, after_name),
                },
            )
        },
    }
}

/// The name of the first question, and the position behind it.
pub fn locate_question(packet: &[u8]) -> (r: Result<(String, usize), ParseError>)
    ensures
        match r {
            Ok((name, end)) => {
                &&& question(packet@) matches Ok((labels, at))
                &&& name@ == name_text(labels)
                &&& end == at
                &&& HEADER_LEN < end <= packet@.len()
            },
            Err(e) => question(packet@) == Err::<(Seq<Seq<u8>>, int), _>(e),
        },
{
    if packet.len() < HEADER_LEN {
        return Err(ParseError::TooShort(packet.len()));
    }
    // The highest bit of the flags: 0 for a query, 1 for a response.
    if packet[2] >= 0x80 {
        return Err(ParseError::NotAQuery);
    }
    if be_u16(packet, 4) == 0 {
        return Err(ParseError::NoQuestion);
    }
    read_name(packet, HEADER_LEN)
}

/// Reads the name at `start`, and gives the position behind it.
pub fn read_name(packet: &[u8], start: usize) -> (r: Result<(String, usize), ParseError>)
    ensures
        match r {
            Ok((name, end)) => {
                &&& labels_at(packet@, start as int, 0, 0) matches Ok((labels, at))
                &&& name@ == name_text(labels)
                &&& end == at
                &&& start < end <= packet@.len()
            },
            Err(e) => labels_at(packet@, start as int, 0, 0) == Err::<(Seq<Seq<u8>>, int), _>(e),
        },
{
    let mut name = String::new();
    let mut pos: usize = start;
    let mut used: usize = 0;
    let mut pointers: usize = 0;
    // After a jump the reading goes on elsewhere: where to come back to.
    let mut resume: Option<usize> = None;
    let mut root = true;
    let ghost mut done: Seq<Seq<u8>> = Seq::empty();

    let ghost whole = labels_at(packet@, start as int, 0, 0);
    loop
        invariant
            used <= MAX_NAME_LEN,
            pointers <= MAX_POINTERS,
            name@ == dotted(done),
            root == (done.len() == 0),
            resume matches Some(back) ==> start < back <= packet@.len(),
            resume is None ==> start <= pos,
            whole == match labels_at(packet@, pos as int, used as int, pointers as int) {
                Ok((labels, end)) => Ok(
                    (
                        done + labels,
                        match resume {
                            Some(back) => back as int,
                            None => end,
                        },
                    ),
                ),
                Err(e) => Err(e),
            },
            whole == labels_at(packet@, start as int, 0, 0),
        decreases MAX_POINTERS - pointers, packet@.len() - pos,
    {
        if pos >= packet.len() {
            return Err(ParseError::UnexpectedEnd);
        }
        let len: usize = packet[pos] as usize;
        if len == 0 {
            assert(done + Seq::<Seq<u8>>::empty() =~= done);
            if root {
                name.push('.');  // the root
                assert(name@ =~= name_text(done));
            }
            return Ok(
                (
                    name,
                    match resume {
                        Some(back) => back,
                        None => pos + 1,
                    },
                ),
            );
        } else if len < 0x40 {
            // 00xxxxxx: an ordinary label of `len` bytes.
            if used + len + 1 > MAX_NAME_LEN {
                return Err(ParseError::NameTooLong);
            }
            used = used + len + 1;
            if packet.len() - pos - 1 < len {
                return Err(ParseError::UnexpectedEnd);
            }
            let label = slice_subrange(packet, pos + 1, pos + 1 + len);
            let ghost before = done;
            if !root {
                name.push('.');
            }
            label_into(label, &mut name);
            root = false;
            proof {
                done = done.push(label@);
                assert(done.drop_last() =~= before);
                assert(name@ =~= dotted(done));
                match labels_at(packet@, pos + 1 + len, used as int, pointers as int) {
                    Ok((labels, end)) => {
                        assert(before + (seq![label@] + labels) =~= done + labels);
                    },
                    Err(_) => {},
                }
            }
            pos = pos + 1 + len;
        } else if len >= 0xc0 {
            // 11xxxxxx: a pointer to a position of the packet.
            if packet.len() - pos < 2 {
                return Err(ParseError::UnexpectedEnd);
            }
            let low: usize = packet[pos + 1] as usize;
            if pointers >= MAX_POINTERS {
                return Err(ParseError::TooManyPointers);
            }
            pointers = pointers + 1;
            if resume.is_none() {
                resume = Some(pos + 2);
            }
            pos = (len - 0xc0) * 256 + low;
        } else {
            return Err(ParseError::ReservedLabel(packet[pos]));
        }
    }
}

/// Copies a label, with everything escaped that is not visible ASCII.
///
/// These bytes come from the network and end up in a terminal.
fn label_into(label: &[u8], out: &mut String)
    ensures
        final(out)@ == old(out)@ + label_text(label@),
{
    let mut i: usize = 0;
    assert(out@ =~= old(out)@ + label_text(label@.take(0)));
    while i < label.len()
        invariant
            i <= label@.len(),
            out@ == old(out)@ + label_text(label@.take(i as int)),
        decreases label@.len() - i,
    {
        if label[i] == 46 {
            out.push('\\');
            out.push('.');
        } else {
            name::escape_byte_into(label[i], out);
        }
        assert(label@.take(i + 1).drop_last() =~= label@.take(i as int));
        assert(out@ =~= old(out)@ + label_text(label@.take(i + 1)));
        i = i + 1;
    }
    assert(label@.take(i as int) =~= label@);
}

/// The number at a position of a packet.
fn be_u16(packet: &[u8], at: usize) -> (r: u16)
    requires
        at + 2 <= packet@.len(),
    ensures
        r == bytes::be16_at(packet@, at as int),
{
    bytes::join16(packet[at], packet[at + 1])
}

/// The identifier of a packet, if it is long enough to hold one.
pub fn id(packet: &[u8]) -> (r: Option<u16>)
    ensures
        r == (if packet@.len() >= 2 {
            Some(bytes::be16_at(packet@, 0))
        } else {
            None
        }),
{
    if packet.len() >= 2 {
        Some(be_u16(packet, 0))
    } else {
        None
    }
}

// ---------------------------------------------------------------------------
// Refusing
// ---------------------------------------------------------------------------

/// The first byte of the flags of a refusal: a response, with the opcode of
/// the request and its wish for recursion.
pub open spec fn refusal_flags(requested: u8) -> u8 {
    0x80u8 | (requested & 0x79u8)
}

/// The answer that a name does not exist: the identifier and the question of
/// the request, no record, and the code [`RCODE_NXDOMAIN`]. There is none for
/// a packet whose question cannot be delimited.
pub open spec fn refusal(request: Seq<u8>) -> Option<Seq<u8>> {
    match question(request) {
        Ok((_, end)) => if end + 4 <= request.len() {
            Some(
                seq![
                    request[0],
                    request[1],
                    refusal_flags(request[2]),
                    (0x80 + RCODE_NXDOMAIN) as u8,
                    0,
                    1,
                    0,
                    0,
                    0,
                    0,
                    0,
                    0,
                ] + request.subrange(HEADER_LEN as int, end + 4),
            )
        } else {
            None
        },
        Err(_) => None,
    }
}

/// The answer that the name asked for does not exist.
///
/// `None` where the question of the request cannot be delimited.
pub fn nxdomain(request: &[u8]) -> (r: Option<Vec<u8>>)
    ensures
        match r {
            Some(response) => refusal(request@) == Some(response@),
            None => refusal(request@) is None,
        },
{
    match locate_question(request) {
        Err(_) => None,
        Ok((_, end)) => {
            if request.len() - end < 4 {
                return None;
            }
            let mut response: Vec<u8> = Vec::new();
            response.push(request[0]);
            response.push(request[1]);
            response.push(0x80u8 | (request[2] & 0x79u8));
            response.push(0x80 + RCODE_NXDOMAIN);
            response.push(0);
            response.push(1);
            let mut count: usize = 0;
            while count < 6
                invariant
                    count <= 6,
                    request@.len() >= HEADER_LEN,
                    response@ == seq![
                        request@[0],
                        request@[1],
                        refusal_flags(request@[2]),
                        (0x80 + RCODE_NXDOMAIN) as u8,
                        0,
                        1,
                    ] + Seq::new(count as nat, |i: int| 0u8),
                decreases 6 - count,
            {
                response.push(0);
                count = count + 1;
            }
            let asked = slice_subrange(request, HEADER_LEN, end + 4);
            response.extend_from_slice(asked);
            assert(refusal(request@).unwrap() =~= response@);
            Some(response)
        },
    }
}

// ---------------------------------------------------------------------------
// Laws
// ---------------------------------------------------------------------------

/// The labels of a name as a packet holds them: each with its length before
/// it, and a zero byte behind the last.
pub open spec fn label_bytes(labels: Seq<Seq<u8>>) -> Seq<u8>
    decreases labels.len(),
{
    if labels.len() == 0 {
        seq![0u8]
    } else {
        seq![labels[0].len() as u8] + labels[0] + label_bytes(labels.skip(1))
    }
}

/// How many bytes the labels of a name take, without the zero byte.
pub open spec fn name_size(labels: Seq<Seq<u8>>) -> int
    decreases labels.len(),
{
    if labels.len() == 0 {
        0
    } else {
        1 + labels[0].len() + name_size(labels.skip(1))
    }
}

/// A name that the RFC allows: labels of 1 to 63 bytes, 255 in all.
pub open spec fn is_name(labels: Seq<Seq<u8>>) -> bool {
    &&& name_size(labels) <= 255
    &&& forall|i: int| 0 <= i < labels.len() ==> 1 <= (#[trigger] labels[i]).len() <= 63
}

/// A query: an identifier, the rest of the header, a question, and whatever
/// follows.
pub open spec fn query_bytes(
    id: u16,
    header: Seq<u8>,
    labels: Seq<Seq<u8>>,
    qtype: u16,
    rest: Seq<u8>,
) -> Seq<u8> {
    bytes::be16_bytes(id as int) + header + label_bytes(labels) + bytes::be16_bytes(qtype as int)
        + rest
}

/// The labels written at a position are those read there.
proof fn lemma_labels_read(
    packet: Seq<u8>,
    pos: int,
    labels: Seq<Seq<u8>>,
    used: int,
    jumps: int,
)
    requires
        0 <= pos,
        0 <= used,
        pos + label_bytes(labels).len() <= packet.len(),
        packet.subrange(pos, pos + label_bytes(labels).len()) == label_bytes(labels),
        used + name_size(labels) <= MAX_NAME_LEN,
        forall|i: int| 0 <= i < labels.len() ==> 1 <= (#[trigger] labels[i]).len() <= 63,
    ensures
        labels_at(packet, pos, used, jumps) == Ok::<_, ParseError>(
            (labels, pos + label_bytes(labels).len()),
        ),
    decreases labels.len(),
{
    let all = label_bytes(labels);
    let here = packet.subrange(pos, pos + all.len());
    assert(here[0] == packet[pos]);
    if labels.len() > 0 {
        let first = labels[0];
        let len = first.len() as int;
        let others = labels.skip(1);
        let tail = label_bytes(others);
        assert(all[0] == len);
        assert(packet.subrange(pos + 1, pos + 1 + len) =~= first) by {
            assert forall|i: int| 0 <= i < len implies packet[pos + 1 + i] == first[i] by {
                assert(here[1 + i] == all[1 + i]);
            }
        }
        assert(packet.subrange(pos + 1 + len, pos + 1 + len + tail.len()) =~= tail) by {
            assert forall|i: int| 0 <= i < tail.len() implies packet[pos + 1 + len + i]
                == tail[i] by {
                assert(here[1 + len + i] == all[1 + len + i]);
            }
        }
        lemma_name_size(others);
        assert forall|i: int| 0 <= i < others.len() implies 1 <= (#[trigger] others[i]).len()
            <= 63 by {
            assert(others[i] == labels[i + 1]);
        }
        lemma_labels_read(packet, pos + 1 + len, others, used + len + 1, jumps);
        assert(seq![first] + others =~= labels);
    } else {
        assert(labels =~= Seq::empty());
    }
}

/// A size is never negative.
proof fn lemma_name_size(labels: Seq<Seq<u8>>)
    ensures
        name_size(labels) >= 0,
        label_bytes(labels).len() == name_size(labels) + 1,
    decreases labels.len(),
{
    if labels.len() > 0 {
        lemma_name_size(labels.skip(1));
    }
}

/// Of any query, whatever follows its first question, exactly its identifier,
/// its name and its type are read: the name shows the very labels that the
/// packet holds.
pub proof fn law_question_reads_back(
    id: u16,
    header: Seq<u8>,
    labels: Seq<Seq<u8>>,
    qtype: u16,
    rest: Seq<u8>,
)
    requires
        header.len() == HEADER_LEN - 2,
        header[0] < 0x80,
        bytes::be16_at(header, 2) > 0,
        is_name(labels),
    ensures
        query_of(query_bytes(id, header, labels, qtype, rest)) == Ok::<_, ParseError>(
            (id, name_text(labels), qtype),
        ),
        shown_name(name_text(labels)) == labels,
{
    law_name_reads_back(labels);
    let packet = query_bytes(id, header, labels, qtype, rest);
    let at = HEADER_LEN as int;
    let end = at + label_bytes(labels).len();
    lemma_name_size(labels);
    assert(packet.subrange(at, end) =~= label_bytes(labels));
    lemma_labels_read(packet, at, labels, 0, 0);
    assert(packet[end] == bytes::be16_bytes(qtype as int)[0]);
    assert(packet[end + 1] == bytes::be16_bytes(qtype as int)[1]);
    assert(packet[4] == header[2]);
    assert(packet[5] == header[3]);
}

/// Whatever a packet holds, the name read of it is made of visible ASCII: it
/// can be shown in a terminal.
pub proof fn law_query_name_is_visible(packet: Seq<u8>)
    ensures
        query_of(packet) matches Ok((_, name, _)) ==> name::all_visible(name),
{
    if let Ok((labels, _)) = question(packet) {
        lemma_dotted_visible(labels);
    }
}

/// Labels are shown in visible ASCII.
proof fn lemma_dotted_visible(labels: Seq<Seq<u8>>)
    ensures
        name::all_visible(dotted(labels)),
    decreases labels.len(),
{
    if labels.len() == 1 {
        lemma_label_visible(labels[0]);
    } else if labels.len() > 1 {
        lemma_dotted_visible(labels.drop_last());
        lemma_label_visible(labels.last());
    }
}

/// A label is shown in visible ASCII.
proof fn lemma_label_visible(label: Seq<u8>)
    ensures
        name::all_visible(label_text(label)),
    decreases label.len(),
{
    if label.len() > 0 {
        lemma_label_visible(label.drop_last());
        assert(name::all_visible(label_byte(label.last())));
    }
}

/// The byte that the start of a text stands for, as RFC 1035 has it, and how
/// much of the text it takes: behind a backslash three digits, or the
/// character itself.
pub open spec fn shown_byte(s: Seq<char>) -> (u8, int) {
    if s[0] != '\\' || s.len() < 2 {
        (s[0] as u8, 1)
    } else if '0' <= s[1] <= '9' && s.len() >= 4 {
        (
            ((s[1] as int - 48) * 100 + (s[2] as int - 48) * 10 + (s[3] as int - 48)) as u8,
            4,
        )
    } else {
        (s[1] as u8, 2)
    }
}

/// The labels that a text shows: a dot that no backslash stands before ends
/// one.
pub open spec fn shown_labels(s: Seq<char>) -> Seq<Seq<u8>>
    decreases s.len(),
{
    if s.len() == 0 {
        seq![Seq::<u8>::empty()]
    } else if s[0] == '.' {
        seq![Seq::<u8>::empty()] + shown_labels(s.skip(1))
    } else {
        let (b, len) = shown_byte(s);
        let more = shown_labels(s.skip(len));
        seq![seq![b] + more[0]] + more.skip(1)
    }
}

/// The labels that the text of a name shows: none where it is the root.
pub open spec fn shown_name(s: Seq<char>) -> Seq<Seq<u8>> {
    if s == seq!['.'] {
        Seq::empty()
    } else {
        shown_labels(s)
    }
}

/// A text always shows a label.
proof fn lemma_shown_labels(s: Seq<char>)
    ensures
        shown_labels(s).len() > 0,
{
}

/// A label starts with its first byte.
proof fn lemma_label_first(label: Seq<u8>)
    requires
        label.len() > 0,
    ensures
        label_text(label) == label_byte(label[0]) + label_text(label.skip(1)),
    decreases label.len(),
{
    if label.len() == 1 {
        assert(label_text(label.drop_last()) =~= Seq::empty());
        assert(label_text(label.skip(1)) =~= Seq::empty());
        assert(label_text(label) =~= label_byte(label[0]) + label_text(label.skip(1)));
    } else {
        lemma_label_first(label.drop_last());
        assert(label.drop_last().skip(1) =~= label.skip(1).drop_last());
        assert(label_text(label) =~= label_byte(label[0]) + label_text(label.skip(1)));
    }
}

/// A byte of a label shows itself, and is no border.
proof fn lemma_byte_shown(b: u8, tail: Seq<char>)
    ensures
        (label_byte(b) + tail)[0] != '.',
        shown_byte(label_byte(b) + tail) == (b, label_byte(b).len() as int),
{
    let s = label_byte(b) + tail;
    let t = label_byte(b);
    assert(s[0] == t[0]);
    if t.len() > 1 {
        assert(s[1] == t[1]);
    }
    if t.len() > 2 {
        assert(s[2] == t[2] && s[3] == t[3]);
    }
}

/// A label shows itself before what follows it.
proof fn lemma_label_shown(label: Seq<u8>, tail: Seq<char>)
    ensures
        shown_labels(label_text(label) + tail) == seq![label + shown_labels(tail)[0]]
            + shown_labels(tail).skip(1),
    decreases label.len(),
{
    let s = label_text(label) + tail;
    let behind = shown_labels(tail);
    lemma_shown_labels(tail);
    if label.len() == 0 {
        assert(s =~= tail);
        assert(label + behind[0] =~= behind[0]);
        assert(seq![behind[0]] + behind.skip(1) =~= behind);
    } else {
        let rest = label.skip(1);
        let more = label_text(rest) + tail;
        lemma_label_first(label);
        lemma_label_shown(rest, tail);
        lemma_byte_shown(label[0], more);
        assert(s =~= label_byte(label[0]) + more);
        assert(s.skip(label_byte(label[0]).len() as int) =~= more);
        let shown = shown_labels(more);
        assert(shown[0] == rest + behind[0]);
        assert(shown.skip(1) =~= behind.skip(1));
        assert(seq![label[0]] + (rest + behind[0]) =~= label + behind[0]);
    }
}

/// Labels start with the first of them.
proof fn lemma_dotted_first(labels: Seq<Seq<u8>>)
    requires
        labels.len() > 1,
    ensures
        dotted(labels) == label_text(labels[0]) + (seq!['.'] + dotted(labels.skip(1))),
    decreases labels.len(),
{
    let before = labels.drop_last();
    let last = label_text(labels.last());
    if labels.len() == 2 {
        assert(dotted(before) == label_text(labels[0]));
        assert(labels.skip(1)[0] == labels.last());
        assert(dotted(labels) =~= label_text(labels[0]) + (seq!['.'] + dotted(labels.skip(1))));
    } else {
        lemma_dotted_first(before);
        assert(before.skip(1) =~= labels.skip(1).drop_last());
        assert(labels.skip(1).last() == labels.last());
        assert(dotted(labels) =~= label_text(labels[0]) + (seq!['.'] + dotted(labels.skip(1))));
    }
}

/// Labels show themselves.
proof fn lemma_dotted_shown(labels: Seq<Seq<u8>>)
    requires
        labels.len() > 0,
    ensures
        shown_labels(dotted(labels)) == labels,
    decreases labels.len(),
{
    let first = labels[0];
    if labels.len() == 1 {
        let nothing = Seq::<char>::empty();
        lemma_label_shown(first, nothing);
        assert(label_text(first) + nothing =~= dotted(labels));
        assert(first + Seq::<u8>::empty() =~= first);
        assert(shown_labels(dotted(labels)) =~= labels);
    } else {
        let rest = labels.skip(1);
        let tail = seq!['.'] + dotted(rest);
        lemma_dotted_first(labels);
        lemma_dotted_shown(rest);
        lemma_label_shown(first, tail);
        assert(tail.skip(1) =~= dotted(rest));
        assert(shown_labels(tail) =~= seq![Seq::<u8>::empty()] + rest);
        assert(first + Seq::<u8>::empty() =~= first);
        assert(shown_labels(dotted(labels)) =~= labels);
    }
}

/// The text of a name reads back as its labels, whatever bytes they hold.
pub proof fn law_name_reads_back(labels: Seq<Seq<u8>>)
    requires
        forall|i: int| 0 <= i < labels.len() ==> 1 <= (#[trigger] labels[i]).len(),
    ensures
        shown_name(name_text(labels)) == labels,
{
    if labels.len() == 0 {
        assert(labels =~= Seq::empty());
    } else {
        lemma_dotted_shown(labels);
        if dotted(labels) == seq!['.'] {
            let s = seq!['.'];
            assert(s.skip(1) =~= Seq::empty());
            assert(shown_labels(s)[0].len() == 0);
            assert(labels[0].len() >= 1);
        }
    }
}

/// Two different names are never shown alike.
pub proof fn law_different_names_look_different(a: Seq<Seq<u8>>, b: Seq<Seq<u8>>)
    requires
        forall|i: int| 0 <= i < a.len() ==> 1 <= (#[trigger] a[i]).len(),
        forall|i: int| 0 <= i < b.len() ==> 1 <= (#[trigger] b[i]).len(),
        name_text(a) == name_text(b),
    ensures
        a == b,
{
    law_name_reads_back(a);
    law_name_reads_back(b);
}

/// A label of visible characters is shown as those: letters, digits, hyphens
/// and underscores among them, and all but the dot and the backslash.
pub proof fn law_visible_label_stays(label: Seq<u8>)
    requires
        forall|i: int|
            0 <= i < label.len() ==> 33 <= #[trigger] label[i] <= 126 && label[i] != 46 && label[i]
                != 92,
    ensures
        label_text(label) == label.map_values(|b: u8| b as char),
    decreases label.len(),
{
    if label.len() > 0 {
        let before = label.drop_last();
        assert forall|i: int| 0 <= i < before.len() implies 33 <= #[trigger] before[i] <= 126
            && before[i] != 46 && before[i] != 92 by {
            assert(before[i] == label[i]);
        }
        law_visible_label_stays(before);
        assert(label[label.len() - 1] != 46);
    }
    assert(label_text(label) =~= label.map_values(|b: u8| b as char));
}

/// The labels of a name as a packet holds them, without the zero byte.
pub open spec fn open_labels(labels: Seq<Seq<u8>>) -> Seq<u8>
    decreases labels.len(),
{
    if labels.len() == 0 {
        Seq::empty()
    } else {
        seq![labels[0].len() as u8] + labels[0] + open_labels(labels.skip(1))
    }
}

/// Labels written at a position are read there, before what stands behind
/// them.
proof fn lemma_open_labels_read(
    packet: Seq<u8>,
    pos: int,
    labels: Seq<Seq<u8>>,
    used: int,
    jumps: int,
)
    requires
        0 <= pos,
        0 <= used,
        pos + open_labels(labels).len() <= packet.len(),
        packet.subrange(pos, pos + open_labels(labels).len()) == open_labels(labels),
        used + open_labels(labels).len() <= MAX_NAME_LEN,
        forall|i: int| 0 <= i < labels.len() ==> 1 <= (#[trigger] labels[i]).len() <= 63,
    ensures
        labels_at(packet, pos, used, jumps) == (match labels_at(
            packet,
            pos + open_labels(labels).len(),
            used + open_labels(labels).len(),
            jumps,
        ) {
            Ok((more, end)) => Ok((labels + more, end)),
            Err(e) => Err(e),
        }),
    decreases labels.len(),
{
    let all = open_labels(labels);
    let here = packet.subrange(pos, pos + all.len());
    let behind = labels_at(packet, pos + all.len(), used + all.len(), jumps);
    if labels.len() > 0 {
        let first = labels[0];
        let len = first.len() as int;
        let others = labels.skip(1);
        let tail = open_labels(others);
        assert(here[0] == packet[pos]);
        assert(all[0] == len);
        assert(packet.subrange(pos + 1, pos + 1 + len) =~= first) by {
            assert forall|i: int| 0 <= i < len implies packet[pos + 1 + i] == first[i] by {
                assert(here[1 + i] == all[1 + i]);
            }
        }
        assert(packet.subrange(pos + 1 + len, pos + 1 + len + tail.len()) =~= tail) by {
            assert forall|i: int| 0 <= i < tail.len() implies packet[pos + 1 + len + i]
                == tail[i] by {
                assert(here[1 + len + i] == all[1 + len + i]);
            }
        }
        assert forall|i: int| 0 <= i < others.len() implies 1 <= (#[trigger] others[i]).len()
            <= 63 by {
            assert(others[i] == labels[i + 1]);
        }
        lemma_open_labels_read(packet, pos + 1 + len, others, used + len + 1, jumps);
        if let Ok((more, _)) = behind {
            assert(seq![first] + (others + more) =~= labels + more);
        }
    } else {
        if let Ok((more, _)) = behind {
            assert(labels + more =~= more);
        }
    }
}

/// A name that ends with a pointer goes on where that leads, anywhere in the
/// packet; it ends, where it stands, behind the pointer.
pub proof fn law_pointer_leads_to_the_rest(
    packet: Seq<u8>,
    pos: int,
    labels: Seq<Seq<u8>>,
    target: int,
    more: Seq<Seq<u8>>,
)
    requires
        0 <= pos,
        0 <= target < 0x4000,
        pos + open_labels(labels).len() + 2 <= packet.len(),
        packet.subrange(pos, pos + open_labels(labels).len()) == open_labels(labels),
        packet[pos + open_labels(labels).len()] == 0xc0 + target / 256,
        packet[pos + open_labels(labels).len() + 1] == target % 256,
        target + label_bytes(more).len() <= packet.len(),
        packet.subrange(target, target + label_bytes(more).len()) == label_bytes(more),
        is_name(labels + more),
    ensures
        labels_at(packet, pos, 0, 0) == Ok::<_, ParseError>(
            (labels + more, pos + open_labels(labels).len() + 2),
        ),
{
    let whole = labels + more;
    let size = open_labels(labels).len() as int;
    lemma_size_adds(labels, more);
    lemma_name_size(more);
    assert forall|i: int| 0 <= i < labels.len() implies 1 <= (#[trigger] labels[i]).len()
        <= 63 by {
        assert(whole[i] == labels[i]);
    }
    assert forall|i: int| 0 <= i < more.len() implies 1 <= (#[trigger] more[i]).len() <= 63 by {
        assert(whole[labels.len() + i] == more[i]);
    }
    lemma_open_labels_read(packet, pos, labels, 0, 0);
    lemma_labels_read(packet, target, more, size, 1);
    assert((packet[pos + size] as int - 0xc0) * 256 + packet[pos + size + 1] == target);
}

/// The sizes of two parts of a name add up.
proof fn lemma_size_adds(a: Seq<Seq<u8>>, b: Seq<Seq<u8>>)
    ensures
        name_size(a + b) == open_labels(a).len() + name_size(b),
    decreases a.len(),
{
    if a.len() == 0 {
        assert(a + b =~= b);
    } else {
        lemma_size_adds(a.skip(1), b);
        assert((a + b).skip(1) =~= a.skip(1) + b);
    }
}

/// What is no query is told by what is wrong with it: a packet shorter than a
/// header, a response, a packet without a question, and a name of a reserved
/// kind.
pub proof fn law_other_packets_are_refused(packet: Seq<u8>)
    requires
        packet.len() <= 0xffff,
    ensures
        packet.len() < 12 ==> query_of(packet) == Err::<(u16, Seq<char>, u16), _>(
            ParseError::TooShort(packet.len() as usize),
        ),
        packet.len() >= 12 && packet[2] >= 128 ==> query_of(packet) == Err::<
            (u16, Seq<char>, u16),
            _,
        >(ParseError::NotAQuery),
        packet.len() >= 12 && packet[2] < 128 && packet[4] == 0 && packet[5] == 0 ==> query_of(
            packet,
        ) == Err::<(u16, Seq<char>, u16), _>(ParseError::NoQuestion),
        packet.len() > 12 && packet[2] < 128 && packet[4] + packet[5] > 0 && 64 <= packet[12] < 192
            ==> query_of(packet) == Err::<(u16, Seq<char>, u16), _>(
            ParseError::ReservedLabel(packet[12]),
        ),
{
}

/// A name longer than the limit is refused.
pub proof fn law_long_name_is_refused(
    packet: Seq<u8>,
    pos: int,
    labels: Seq<Seq<u8>>,
    last: Seq<u8>,
)
    requires
        0 <= pos,
        pos + open_labels(labels).len() < packet.len(),
        packet.subrange(pos, pos + open_labels(labels).len()) == open_labels(labels),
        open_labels(labels).len() <= 255 < open_labels(labels).len() + last.len() + 1,
        forall|i: int| 0 <= i < labels.len() ==> 1 <= (#[trigger] labels[i]).len() <= 63,
        1 <= last.len() <= 63,
        packet[pos + open_labels(labels).len()] == last.len(),
    ensures
        labels_at(packet, pos, 0, 0) == Err::<(Seq<Seq<u8>>, int), _>(ParseError::NameTooLong),
{
    lemma_open_labels_read(packet, pos, labels, 0, 0);
}

/// A name that is cut is never read as a shorter one.
proof fn lemma_cut_labels(
    packet: Seq<u8>,
    pos: int,
    labels: Seq<Seq<u8>>,
    used: int,
    cut: int,
)
    requires
        0 <= pos,
        0 <= used,
        pos + label_bytes(labels).len() <= packet.len(),
        packet.subrange(pos, pos + label_bytes(labels).len()) == label_bytes(labels),
        used + name_size(labels) <= MAX_NAME_LEN,
        forall|i: int| 0 <= i < labels.len() ==> 1 <= (#[trigger] labels[i]).len() <= 63,
        0 <= cut < pos + label_bytes(labels).len(),
    ensures
        labels_at(packet.take(cut), pos, used, 0) == Err::<(Seq<Seq<u8>>, int), _>(
            ParseError::UnexpectedEnd,
        ),
    decreases labels.len(),
{
    let all = label_bytes(labels);
    let here = packet.subrange(pos, pos + all.len());
    let part = packet.take(cut);
    if labels.len() > 0 && pos < cut {
        let first = labels[0];
        let len = first.len() as int;
        let others = labels.skip(1);
        let tail = label_bytes(others);
        assert(here[0] == packet[pos]);
        assert(all[0] == len);
        assert(part[pos] == len);
        lemma_name_size(others);
        if pos + 1 + len <= cut {
            assert(packet.subrange(pos + 1 + len, pos + 1 + len + tail.len()) =~= tail) by {
                assert forall|i: int| 0 <= i < tail.len() implies packet[pos + 1 + len + i]
                    == tail[i] by {
                    assert(here[1 + len + i] == all[1 + len + i]);
                }
            }
            assert forall|i: int| 0 <= i < others.len() implies 1 <= (#[trigger] others[i]).len()
                <= 63 by {
                assert(others[i] == labels[i + 1]);
            }
            lemma_cut_labels(packet, pos + 1 + len, others, used + len + 1, cut);
        }
    }
}

/// A query that is cut anywhere before the end of its type is refused: never a
/// shorter name, and never another type.
pub proof fn law_cut_query_is_refused(
    id: u16,
    header: Seq<u8>,
    labels: Seq<Seq<u8>>,
    qtype: u16,
    rest: Seq<u8>,
    cut: int,
)
    requires
        header.len() == 10,
        header[0] < 0x80,
        header[2] + header[3] > 0,
        is_name(labels),
        0 <= cut < 12 + label_bytes(labels).len() + 2,
    ensures
        query_of(query_bytes(id, header, labels, qtype, rest).take(cut)) == Err::<
            (u16, Seq<char>, u16),
            _,
        >(
            if cut < 12 {
                ParseError::TooShort(cut as usize)
            } else {
                ParseError::UnexpectedEnd
            },
        ),
{
    let packet = query_bytes(id, header, labels, qtype, rest);
    let part = packet.take(cut);
    let end = 12 + label_bytes(labels).len() as int;
    lemma_name_size(labels);
    assert(packet.subrange(12, end) =~= label_bytes(labels));
    if cut >= 12 {
        assert(part[2] == header[0] && part[4] == header[2] && part[5] == header[3]);
        if cut < end {
            lemma_cut_labels(packet, 12, labels, 0, cut);
        } else {
            assert(part.subrange(12, end) =~= label_bytes(labels));
            lemma_labels_read(part, 12, labels, 0, 0);
        }
    }
}

/// A name that points to itself is not followed forever: it is refused.
pub proof fn law_pointer_loop_is_refused(packet: Seq<u8>, pos: int)
    requires
        0 <= pos,
        pos + 1 < packet.len(),
        packet[pos] >= 0xc0,
        (packet[pos] - 0xc0) * 256 + packet[pos + 1] == pos,
    ensures
        labels_at(packet, pos, 0, 0) == Err::<(Seq<Seq<u8>>, int), _>(ParseError::TooManyPointers),
{
    lemma_pointer_loop(packet, pos, 0);
}

/// The same, after some turns.
proof fn lemma_pointer_loop(packet: Seq<u8>, pos: int, jumps: int)
    requires
        0 <= pos,
        pos + 1 < packet.len(),
        packet[pos] >= 0xc0,
        (packet[pos] - 0xc0) * 256 + packet[pos + 1] == pos,
        0 <= jumps <= MAX_POINTERS,
    ensures
        labels_at(packet, pos, 0, jumps) == Err::<(Seq<Seq<u8>>, int), _>(
            ParseError::TooManyPointers,
        ),
    decreases MAX_POINTERS - jumps,
{
    if jumps < MAX_POINTERS {
        lemma_pointer_loop(packet, pos, jumps + 1);
    }
}

/// A query with a whole question can be refused, and its refusal is an answer
/// to it: the same identifier and the same question, the code
/// [`RCODE_NXDOMAIN`], no record, no claim to be authoritative or cut, and the
/// opcode and the wish for recursion of the query. A refusal is never taken for
/// a query in its turn.
pub proof fn law_refusal_answers_the_query(request: Seq<u8>)
    ensures
        question(request) matches Ok((_, end)) ==> (refusal(request) is Some <==> end + 4
            <= request.len()),
        refusal(request) matches Some(response) ==> {
            &&& query_of(request) is Ok
            &&& bytes::be16_at(response, 0) == bytes::be16_at(request, 0)
            &&& response[3] % 16 == RCODE_NXDOMAIN
            &&& response[2] & 0x06u8 == 0
            &&& response[2] & 0x79u8 == request[2] & 0x79u8
            &&& bytes::be16_at(response, 4) == 1
            &&& bytes::be16_at(response, 6) == 0
            &&& bytes::be16_at(response, 8) == 0
            &&& bytes::be16_at(response, 10) == 0
            &&& response.len() <= request.len()
            &&& response.skip(HEADER_LEN as int) == request.subrange(
                HEADER_LEN as int,
                response.len() as int,
            )
            &&& query_of(response) == Err::<(u16, Seq<char>, u16), _>(ParseError::NotAQuery)
        },
{
    if let Ok((_, end)) = question(request) {
        lemma_end_bounded(request, HEADER_LEN as int, 0, 0);
        let flags = request[2];
        assert((0x80u8 | (flags & 0x79u8)) & 0x06u8 == 0) by (bit_vector);
        assert((0x80u8 | (flags & 0x79u8)) & 0x79u8 == flags & 0x79u8) by (bit_vector);
        assert((0x80u8 | (flags & 0x79u8)) >= 0x80u8) by (bit_vector);
        if let Some(response) = refusal(request) {
            assert(response.skip(HEADER_LEN as int) =~= request.subrange(
                HEADER_LEN as int,
                response.len() as int,
            ));
        }
    }
}

/// A name ends within its packet, behind its start.
proof fn lemma_end_bounded(packet: Seq<u8>, pos: int, used: int, jumps: int)
    ensures
        labels_at(packet, pos, used, jumps) matches Ok((_, end)) ==> pos < end <= packet.len(),
    decreases MAX_POINTERS - jumps, packet.len() - pos,
{
    if 0 <= pos < packet.len() {
        let len = packet[pos] as int;
        if 0 < len < 0x40 {
            if used + len + 1 <= MAX_NAME_LEN && pos + 1 + len <= packet.len() {
                lemma_end_bounded(packet, pos + 1 + len, used + len + 1, jumps);
            }
        }
    }
}

/// The refusal of a query, byte by byte: its identifier, the flags of a
/// response with what is kept of the query, recursion available and the code 3,
/// one question and no record, and that question as it was asked, its class
/// with it. Nothing else of the query comes back. A query whose class is cut
/// has no refusal.
pub proof fn law_refusal_is_the_question_answered(
    id: u16,
    header: Seq<u8>,
    labels: Seq<Seq<u8>>,
    qtype: u16,
    class: u16,
    rest: Seq<u8>,
    byte: u8,
)
    requires
        header.len() == 10,
        header[0] < 0x80,
        header[2] + header[3] > 0,
        is_name(labels),
    ensures
        refusal(
            query_bytes(id, header, labels, qtype, bytes::be16_bytes(class as int) + rest),
        ) == Some(
            query_bytes(
                id,
                seq![0x80u8 | (header[0] & 0x79u8), 0x83u8, 0, 1, 0, 0, 0, 0, 0, 0],
                labels,
                qtype,
                bytes::be16_bytes(class as int),
            ),
        ),
        refusal(query_bytes(id, header, labels, qtype, seq![byte])) is None,
{
    let tail = bytes::be16_bytes(class as int);
    let packet = query_bytes(id, header, labels, qtype, tail + rest);
    let at = 12int;
    let end = at + label_bytes(labels).len();
    lemma_name_size(labels);
    assert(packet.subrange(at, end) =~= label_bytes(labels));
    lemma_labels_read(packet, at, labels, 0, 0);
    assert(packet[0] == bytes::be16_bytes(id as int)[0]);
    assert(packet[1] == bytes::be16_bytes(id as int)[1]);
    assert(packet[2] == header[0]);
    assert(packet[4] == header[2]);
    assert(packet[5] == header[3]);
    let expected = query_bytes(
        id,
        seq![0x80u8 | (header[0] & 0x79u8), 0x83u8, 0, 1, 0, 0, 0, 0, 0, 0],
        labels,
        qtype,
        tail,
    );
    assert(refusal(packet).unwrap() =~= expected);
    let short = query_bytes(id, header, labels, qtype, seq![byte]);
    assert(short.subrange(at, end) =~= label_bytes(labels));
    lemma_labels_read(short, at, labels, 0, 0);
    assert(short[2] == header[0] && short[4] == header[2] && short[5] == header[3]);
}

/// A pointer is followed, up to eight in a row: what is read there is what is
/// read here, and the name ends behind the pointer. The ninth is refused.
pub proof fn law_eight_pointers_are_followed(
    packet: Seq<u8>,
    pos: int,
    target: int,
    used: int,
    jumps: int,
)
    requires
        0 <= pos,
        pos + 1 < packet.len(),
        0 <= target < 0x4000,
        packet[pos] == 0xc0 + target / 256,
        packet[pos + 1] == target % 256,
        0 <= jumps,
    ensures
        jumps < 8 ==> labels_at(packet, pos, used, jumps) == (match labels_at(
            packet,
            target,
            used,
            jumps + 1,
        ) {
            Ok((labels, _)) => Ok((labels, pos + 2)),
            Err(e) => Err(e),
        }),
        jumps >= 8 ==> labels_at(packet, pos, used, jumps) == Err::<(Seq<Seq<u8>>, int), _>(
            ParseError::TooManyPointers,
        ),
{
    assert((packet[pos] as int - 0xc0) * 256 + packet[pos + 1] == target);
}

} // verus!
