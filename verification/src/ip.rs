//! Internet addresses: as numbers, as bytes and as text.

use vstd::prelude::*;
use vstd::slice::slice_subrange;

use crate::text;

verus! {

/// An address, as the number that its bytes write.
#[derive(Debug, Clone, Copy, PartialEq, Eq, Hash, Structural)]
pub enum IpAddr {
    /// An IPv4 address.
    V4(u32),
    /// An IPv6 address.
    V6(u128),
}

/// An address and a port.
#[derive(Debug, Clone, Copy, PartialEq, Eq, Hash, Structural)]
pub struct SocketAddr {
    /// The address.
    pub ip: IpAddr,
    /// The scope of an IPv6 address, zero where there is none.
    pub scope_id: u32,
    /// The port.
    pub port: u16,
}

// ---------------------------------------------------------------------------
// Bytes
// ---------------------------------------------------------------------------

/// The number that bytes write, most significant first.
pub open spec fn bytes_number(s: Seq<u8>) -> nat
    decreases s.len(),
{
    if s.len() == 0 {
        0
    } else {
        bytes_number(s.drop_last()) * 256 + s.last() as nat
    }
}

/// How many numbers so many bytes can write.
pub open spec fn power256(n: nat) -> nat
    decreases n,
{
    if n == 0 {
        1
    } else {
        power256((n - 1) as nat) * 256
    }
}

/// Bytes write no more than their number allows.
pub proof fn lemma_bytes_number_bound(s: Seq<u8>)
    ensures
        bytes_number(s) < power256(s.len()),
    decreases s.len(),
{
    if s.len() > 0 {
        lemma_bytes_number_bound(s.drop_last());
    }
}

/// Four bytes write a number of 32 bits, sixteen one of 128.
pub proof fn lemma_address_sizes()
    ensures
        power256(4) == 0x1_0000_0000,
        power256(16) == 0x1_0000_0000_0000_0000_0000_0000_0000_0000,
{
    reveal_with_fuel(power256, 17);
}

/// The address that four or sixteen bytes write.
pub open spec fn address_of(s: Seq<u8>) -> IpAddr {
    if s.len() == 4 {
        IpAddr::V4(bytes_number(s) as u32)
    } else {
        IpAddr::V6(bytes_number(s) as u128)
    }
}

/// Reads an address from four or sixteen bytes.
pub fn read_address(bytes: &[u8]) -> (r: IpAddr)
    requires
        bytes@.len() == 4 || bytes@.len() == 16,
    ensures
        r == address_of(bytes@),
{
    let mut n: u128 = 0;
    let mut i: usize = 0;
    proof {
        lemma_address_sizes();
        lemma_bytes_number_bound(bytes@);
    }
    while i < bytes.len()
        invariant
            i <= bytes@.len() <= 16,
            n == bytes_number(bytes@.take(i as int)),
        decreases bytes@.len() - i,
    {
        let ghost upto = bytes@.take(i + 1);
        assert(upto.drop_last() =~= bytes@.take(i as int));
        proof {
            lemma_bytes_number_bound(upto);
            lemma_power256_grows((i + 1) as nat, 16);
            lemma_address_sizes();
        }
        n = n * 256 + bytes[i] as u128;
        i = i + 1;
    }
    assert(bytes@.take(i as int) =~= bytes@);
    if bytes.len() == 4 {
        IpAddr::V4(n as u32)
    } else {
        IpAddr::V6(n)
    }
}

/// More bytes write no fewer numbers.
proof fn lemma_power256_grows(a: nat, b: nat)
    requires
        a <= b,
    ensures
        power256(a) <= power256(b),
    decreases b,
{
    if a < b {
        lemma_power256_grows(a, (b - 1) as nat);
    }
}

// ---------------------------------------------------------------------------
// Writing
// ---------------------------------------------------------------------------

/// The four numbers of an IPv4 address.
pub open spec fn v4_text(n: u32) -> Seq<char> {
    text::decimal((n / 0x100_0000) as nat).push('.') + text::decimal(
        (n / 0x1_0000 % 256) as nat,
    ).push('.') + text::decimal((n / 0x100 % 256) as nat).push('.') + text::decimal(
        (n % 256) as nat,
    )
}

/// The last groups of 16 bits of a number.
pub open spec fn number_groups(n: nat, count: nat) -> Seq<u16>
    decreases count,
{
    if count == 0 {
        Seq::empty()
    } else {
        number_groups(n / 0x1_0000, (count - 1) as nat).push((n % 0x1_0000) as u16)
    }
}

/// How many zero groups follow one another from a position on.
pub open spec fn zeros_from(groups: Seq<u16>, at: int) -> int
    decreases groups.len() - at,
{
    if 0 <= at < groups.len() && groups[at] == 0 {
        1 + zeros_from(groups, at + 1)
    } else {
        0
    }
}

/// The longest run of zero groups that starts before `upto`, the first of
/// those equally long: where it starts, and its length.
pub open spec fn longest_zeros(groups: Seq<u16>, upto: int) -> (int, int)
    decreases upto,
{
    if upto <= 0 {
        (0, 0)
    } else {
        let before = longest_zeros(groups, upto - 1);
        let here = zeros_from(groups, upto - 1);
        if here > before.1 {
            (upto - 1, here)
        } else {
            before
        }
    }
}

/// Groups in hexadecimal, with colons between them.
pub open spec fn groups_text(groups: Seq<u16>) -> Seq<char>
    decreases groups.len(),
{
    if groups.len() == 0 {
        Seq::empty()
    } else if groups.len() == 1 {
        text::numeral(groups[0] as nat, 16)
    } else {
        groups_text(groups.drop_last()).push(':') + text::numeral(groups.last() as nat, 16)
    }
}

/// The text of an IPv6 address: its eight groups, with two colons in place of
/// the longest run of two or more zeros. An IPv4 address mapped into IPv6 is
/// written as such.
pub open spec fn v6_text(n: u128) -> Seq<char> {
    if n / 0x1_0000_0000 == 0xffff {
        seq![':', ':', 'f', 'f', 'f', 'f', ':'] + v4_text((n % 0x1_0000_0000) as u32)
    } else {
        let groups = number_groups(n as nat, 8);
        let (at, len) = longest_zeros(groups, 8);
        if len > 1 {
            groups_text(groups.take(at)) + seq![':', ':'] + groups_text(groups.skip(at + len))
        } else {
            groups_text(groups)
        }
    }
}

/// The text of an address.
pub open spec fn address_text(ip: IpAddr) -> Seq<char> {
    match ip {
        IpAddr::V4(n) => v4_text(n),
        IpAddr::V6(n) => v6_text(n),
    }
}

/// The text of an address and a port.
pub open spec fn socket_text(a: SocketAddr) -> Seq<char> {
    match a.ip {
        IpAddr::V4(n) => v4_text(n).push(':') + text::decimal(a.port as nat),
        IpAddr::V6(n) => {
            let scope = if a.scope_id == 0 {
                Seq::empty()
            } else {
                seq!['%'] + text::decimal(a.scope_id as nat)
            };
            seq!['['] + v6_text(n) + scope + seq![']', ':'] + text::decimal(a.port as nat)
        },
    }
}

/// Writes an IPv4 address.
fn push_v4(n: u32, out: &mut String)
    ensures
        final(out)@ == old(out)@ + v4_text(n),
{
    text::push_decimal((n / 0x100_0000) as u64, out);
    out.push('.');
    text::push_decimal((n / 0x1_0000 % 256) as u64, out);
    out.push('.');
    text::push_decimal((n / 0x100 % 256) as u64, out);
    out.push('.');
    text::push_decimal((n % 256) as u64, out);
    assert(out@ =~= old(out)@ + v4_text(n));
}

/// Cuts a number into groups of 16 bits.
fn groups_of(n: u128, count: usize) -> (r: Vec<u16>)
    ensures
        r@ == number_groups(n as nat, count as nat),
        r@.len() == count,
    decreases count,
{
    if count == 0 {
        Vec::new()
    } else {
        let mut groups = groups_of(n / 0x1_0000, count - 1);
        groups.push((n % 0x1_0000) as u16);
        groups
    }
}

/// Counts the zero groups from a position on.
fn count_zeros(groups: &[u16], at: usize) -> (r: usize)
    requires
        at <= groups@.len(),
    ensures
        r == zeros_from(groups@, at as int),
        at + r <= groups@.len(),
    decreases groups@.len() - at,
{
    if at < groups.len() && groups[at] == 0 {
        1 + count_zeros(groups, at + 1)
    } else {
        0
    }
}

/// Writes groups, with colons between them.
fn push_groups(groups: &[u16], out: &mut String)
    ensures
        final(out)@ == old(out)@ + groups_text(groups@),
{
    let mut i: usize = 0;
    assert(out@ =~= old(out)@ + groups_text(groups@.take(0)));
    while i < groups.len()
        invariant
            i <= groups@.len(),
            out@ == old(out)@ + groups_text(groups@.take(i as int)),
        decreases groups@.len() - i,
    {
        if i > 0 {
            out.push(':');
        }
        text::push_hex(groups[i], out);
        assert(groups@.take(i + 1).drop_last() =~= groups@.take(i as int));
        assert(out@ =~= old(out)@ + groups_text(groups@.take(i + 1)));
        i = i + 1;
    }
    assert(groups@.take(i as int) =~= groups@);
}

/// Writes an IPv6 address.
fn push_v6(n: u128, out: &mut String)
    ensures
        final(out)@ == old(out)@ + v6_text(n),
{
    if n / 0x1_0000_0000 == 0xffff {
        out.push(':');
        out.push(':');
        out.push('f');
        out.push('f');
        out.push('f');
        out.push('f');
        out.push(':');
        push_v4((n % 0x1_0000_0000) as u32, out);
        assert(out@ =~= old(out)@ + v6_text(n));
        return ;
    }
    let groups = groups_of(n, 8);
    let mut at: usize = 0;
    let mut len: usize = 0;
    let mut i: usize = 0;
    while i < 8
        invariant
            i <= 8,
            groups@.len() == 8,
            (at as int, len as int) == longest_zeros(groups@, i as int),
            at + len <= 8,
        decreases 8 - i,
    {
        let here = count_zeros(groups.as_slice(), i);
        if here > len {
            at = i;
            len = here;
        }
        i = i + 1;
    }
    if len > 1 {
        let head = slice_subrange(groups.as_slice(), 0, at);
        let tail = slice_subrange(groups.as_slice(), at + len, 8);
        assert(head@ =~= groups@.take(at as int));
        assert(tail@ =~= groups@.skip(at + len));
        push_groups(head, out);
        out.push(':');
        out.push(':');
        push_groups(tail, out);
    } else {
        push_groups(groups.as_slice(), out);
    }
    assert(out@ =~= old(out)@ + v6_text(n));
}

impl IpAddr {
    /// An IPv4 address, from its four numbers.
    pub fn v4(a: u8, b: u8, c: u8, d: u8) -> (r: IpAddr)
        ensures
            r == IpAddr::V4((a * 0x100_0000 + b * 0x1_0000 + c * 0x100 + d) as u32),
    {
        IpAddr::V4(a as u32 * 0x100_0000 + b as u32 * 0x1_0000 + c as u32 * 0x100 + d as u32)
    }

    /// Tells whether this is an IPv6 address.
    pub fn is_ipv6(&self) -> (r: bool)
        ensures
            r == (self is V6),
    {
        matches!(self, IpAddr::V6(_))
    }

    /// Writes the address at the end of a text.
    pub fn push_to(&self, out: &mut String)
        ensures
            final(out)@ == old(out)@ + address_text(*self),
    {
        match *self {
            IpAddr::V4(n) => push_v4(n, out),
            IpAddr::V6(n) => push_v6(n, out),
        }
    }

    /// The text of the address.
    pub fn to_string(&self) -> (r: String)
        ensures
            r@ == address_text(*self),
    {
        let mut out = String::new();
        self.push_to(&mut out);
        assert(out@ =~= address_text(*self));
        out
    }
}

impl SocketAddr {
    /// An address and a port, without a scope.
    pub fn new(ip: IpAddr, port: u16) -> (r: SocketAddr)
        ensures
            r == (SocketAddr { ip, scope_id: 0, port }),
    {
        SocketAddr { ip, scope_id: 0, port }
    }

    /// Writes the address and the port at the end of a text.
    pub fn push_to(&self, out: &mut String)
        ensures
            final(out)@ == old(out)@ + socket_text(*self),
    {
        match self.ip {
            IpAddr::V4(n) => {
                push_v4(n, out);
                out.push(':');
                text::push_decimal(self.port as u64, out);
                assert(out@ =~= old(out)@ + socket_text(*self));
            },
            IpAddr::V6(n) => {
                out.push('[');
                push_v6(n, out);
                if self.scope_id != 0 {
                    out.push('%');
                    text::push_decimal(self.scope_id as u64, out);
                }
                out.push(']');
                out.push(':');
                text::push_decimal(self.port as u64, out);
                assert(out@ =~= old(out)@ + socket_text(*self));
            },
        }
    }

    /// The text of the address and the port.
    pub fn to_string(&self) -> (r: String)
        ensures
            r@ == socket_text(*self),
    {
        let mut out = String::new();
        self.push_to(&mut out);
        assert(out@ =~= socket_text(*self));
        out
    }
}

// ---------------------------------------------------------------------------
// Reading
// ---------------------------------------------------------------------------

/// The number that a part of an IPv4 address writes: one to three digits
/// without a leading zero, 255 at most.
pub open spec fn octet_value(s: Seq<char>) -> Option<nat> {
    if 1 <= s.len() <= 3 && text::all_digits(s) && (s.len() > 1 ==> s[0] != '0')
        && text::digits_value(s) <= 255 {
        Some(text::digits_value(s))
    } else {
        None
    }
}

/// The IPv4 address that a text writes: four numbers with dots between them.
pub open spec fn v4_value(s: Seq<char>) -> Option<u32> {
    let parts = text::pieces(s, '.');
    if parts.len() != 4 {
        None
    } else {
        match (
            octet_value(parts[0]),
            octet_value(parts[1]),
            octet_value(parts[2]),
            octet_value(parts[3]),
        ) {
            (Some(a), Some(b), Some(c), Some(d)) => Some(
                (a * 0x100_0000 + b * 0x1_0000 + c * 0x100 + d) as u32,
            ),
            _ => None,
        }
    }
}

/// The number that a hexadecimal digit writes.
pub open spec fn hex_digit(c: char) -> Option<nat> {
    if '0' <= c <= '9' {
        Some((c as int - '0' as int) as nat)
    } else if 'a' <= c <= 'f' {
        Some((c as int - 'a' as int + 10) as nat)
    } else if 'A' <= c <= 'F' {
        Some((c as int - 'A' as int + 10) as nat)
    } else {
        None
    }
}

/// The number that hexadecimal digits write.
pub open spec fn hex_number(s: Seq<char>) -> Option<nat>
    decreases s.len(),
{
    if s.len() == 0 {
        Some(0)
    } else {
        match (hex_number(s.drop_last()), hex_digit(s.last())) {
            (Some(n), Some(d)) => Some(n * 16 + d),
            _ => None,
        }
    }
}

/// The group of an IPv6 address that a text writes: one to four digits.
pub open spec fn group_value(s: Seq<char>) -> Option<u16> {
    if 1 <= s.len() <= 4 {
        match hex_number(s) {
            Some(n) => Some(n as u16),
            None => None,
        }
    } else {
        None
    }
}

/// The groups that texts write, one each.
pub open spec fn plain_groups(parts: Seq<Seq<char>>) -> Option<Seq<u16>>
    decreases parts.len(),
{
    if parts.len() == 0 {
        Some(Seq::empty())
    } else {
        match (plain_groups(parts.drop_last()), group_value(parts.last())) {
            (Some(groups), Some(group)) => Some(groups.push(group)),
            _ => None,
        }
    }
}

/// The groups that texts write, one each but for the last: that may be an
/// IPv4 address, which stands for two.
pub open spec fn ending_groups(parts: Seq<Seq<char>>) -> Option<Seq<u16>> {
    if parts.len() > 0 && v4_value(parts.last()) is Some {
        let n = v4_value(parts.last()).unwrap();
        match plain_groups(parts.drop_last()) {
            Some(groups) => Some(
                groups.push((n / 0x1_0000) as u16).push((n % 0x1_0000) as u16),
            ),
            None => None,
        }
    } else {
        plain_groups(parts)
    }
}

/// The parts of a text between colons, none where it is empty.
pub open spec fn colon_parts(s: Seq<char>) -> Seq<Seq<char>> {
    if s.len() == 0 {
        Seq::empty()
    } else {
        text::pieces(s, ':')
    }
}

/// Where two colons first follow one another: the length of the text where
/// they never do.
pub open spec fn double_colon(s: Seq<char>) -> int
    decreases s.len(),
{
    if s.len() < 2 {
        s.len() as int
    } else if s[0] == ':' && s[1] == ':' {
        0
    } else {
        1 + double_colon(s.skip(1))
    }
}

/// The eight groups that a text writes. Two colons stand once for as many
/// zeros as are missing, one at least; only the end may be an IPv4 address.
pub open spec fn v6_groups(s: Seq<char>) -> Option<Seq<u16>> {
    let at = double_colon(s);
    if at == s.len() {
        match ending_groups(colon_parts(s)) {
            Some(groups) => if groups.len() == 8 {
                Some(groups)
            } else {
                None
            },
            None => None,
        }
    } else {
        match (plain_groups(colon_parts(s.take(at))), ending_groups(colon_parts(s.skip(at + 2)))) {
            (Some(head), Some(tail)) => if head.len() + tail.len() <= 7 {
                Some(
                    head + Seq::new((8 - head.len() - tail.len()) as nat, |i: int| 0u16) + tail,
                )
            } else {
                None
            },
            _ => None,
        }
    }
}

/// The number that groups of 16 bits write.
pub open spec fn groups_number(groups: Seq<u16>) -> nat
    decreases groups.len(),
{
    if groups.len() == 0 {
        0
    } else {
        groups_number(groups.drop_last()) * 0x1_0000 + groups.last() as nat
    }
}

/// The IPv6 address that a text writes.
pub open spec fn v6_value(s: Seq<char>) -> Option<u128> {
    match v6_groups(s) {
        Some(groups) => Some(groups_number(groups) as u128),
        None => None,
    }
}

/// The address that a text writes.
pub open spec fn address_value(s: Seq<char>) -> Option<IpAddr> {
    match v4_value(s) {
        Some(n) => Some(IpAddr::V4(n)),
        None => match v6_value(s) {
            Some(n) => Some(IpAddr::V6(n)),
            None => None,
        },
    }
}

/// The number that plain digits write, `max` at most.
pub open spec fn digits_upto(s: Seq<char>, max: nat) -> Option<nat> {
    if s.len() > 0 && text::all_digits(s) && text::digits_value(s) <= max {
        Some(text::digits_value(s))
    } else {
        None
    }
}

/// The IPv6 address and the scope that a text writes: the scope behind a
/// percent sign, if there is one.
pub open spec fn scoped_value(s: Seq<char>) -> Option<(u128, u32)> {
    let at = text::position(s, '%');
    match v6_value(s.take(at)) {
        None => None,
        Some(n) => if at == s.len() {
            Some((n, 0))
        } else {
            match digits_upto(s.skip(at + 1), u32::MAX as nat) {
                Some(scope) => Some((n, scope as u32)),
                None => None,
            }
        },
    }
}

/// The address and the port that a text writes: the port behind a colon, an
/// IPv6 address in brackets.
pub open spec fn socket_value(s: Seq<char>) -> Option<SocketAddr> {
    if s.len() > 0 && s[0] == '[' {
        let body = s.skip(1);
        let at = text::position(body, ']');
        if at + 1 < body.len() && body[at + 1] == ':' {
            match (scoped_value(body.take(at)), digits_upto(body.skip(at + 2), u16::MAX as nat)) {
                (Some((n, scope_id)), Some(port)) => Some(
                    SocketAddr { ip: IpAddr::V6(n), scope_id, port: port as u16 },
                ),
                _ => None,
            }
        } else {
            None
        }
    } else {
        let at = text::position(s, ':');
        if at < s.len() {
            match (v4_value(s.take(at)), digits_upto(s.skip(at + 1), u16::MAX as nat)) {
                (Some(n), Some(port)) => Some(
                    SocketAddr { ip: IpAddr::V4(n), scope_id: 0, port: port as u16 },
                ),
                _ => None,
            }
        } else {
            None
        }
    }
}

/// Reads a part of an IPv4 address.
fn read_octet(s: &[char]) -> (r: Option<u8>)
    ensures
        match r {
            Some(n) => octet_value(s@) == Some(n as nat),
            None => octet_value(s@) is None,
        },
{
    if s.len() < 1 || s.len() > 3 {
        return None;
    }
    if s.len() > 1 && s[0] == '0' {
        return None;
    }
    match text::read_digits(s, 255) {
        Some(n) => Some(n as u8),
        None => None,
    }
}

/// Reads an IPv4 address.
pub fn read_v4(s: &[char]) -> (r: Option<u32>)
    ensures
        r == v4_value(s@),
{
    let parts = text::split(s, '.');
    let ghost views = text::views(parts@);
    assert(views.len() == parts@.len());
    if parts.len() != 4 {
        return None;
    }
    assert(views[0] == parts@[0]@ && views[1] == parts@[1]@ && views[2] == parts@[2]@ && views[3]
        == parts@[3]@);
    match (
        read_octet(parts[0].as_slice()),
        read_octet(parts[1].as_slice()),
        read_octet(parts[2].as_slice()),
        read_octet(parts[3].as_slice()),
    ) {
        (Some(a), Some(b), Some(c), Some(d)) => Some(
            a as u32 * 0x100_0000 + b as u32 * 0x1_0000 + c as u32 * 0x100 + d as u32,
        ),
        _ => None,
    }
}

/// Reads a hexadecimal digit.
fn read_hex_digit(c: char) -> (r: Option<u16>)
    ensures
        match r {
            Some(d) => hex_digit(c) == Some(d as nat) && d < 16,
            None => hex_digit(c) is None,
        },
{
    if '0' <= c && c <= '9' {
        Some((c as u8 - 48u8) as u16)
    } else if 'a' <= c && c <= 'f' {
        Some((c as u8 - 87u8) as u16)
    } else if 'A' <= c && c <= 'F' {
        Some((c as u8 - 55u8) as u16)
    } else {
        None
    }
}

/// Digits that cannot be read leave the whole unreadable.
proof fn lemma_hex_number_fails(s: Seq<char>, upto: int)
    requires
        0 <= upto <= s.len(),
        hex_number(s.take(upto)) is None,
    ensures
        hex_number(s) is None,
    decreases s.len(),
{
    if upto < s.len() {
        assert(s.drop_last().take(upto) =~= s.take(upto));
        lemma_hex_number_fails(s.drop_last(), upto);
    } else {
        assert(s.take(upto) =~= s);
    }
}

/// Reads a group of an IPv6 address.
fn read_group(s: &[char]) -> (r: Option<u16>)
    ensures
        r == group_value(s@),
{
    if s.len() < 1 || s.len() > 4 {
        return None;
    }
    let mut n: u64 = 0;
    let mut i: usize = 0;
    let mut limit: u64 = 1;
    while i < s.len()
        invariant
            i <= s@.len() <= 4,
            hex_number(s@.take(i as int)) == Some(n as nat),
            n < limit,
            i == 0 ==> limit == 1,
            i == 1 ==> limit == 0x10,
            i == 2 ==> limit == 0x100,
            i == 3 ==> limit == 0x1000,
            i == 4 ==> limit == 0x1_0000,
        decreases s@.len() - i,
    {
        assert(s@.take(i + 1).drop_last() =~= s@.take(i as int));
        match read_hex_digit(s[i]) {
            Some(d) => {
                n = n * 16 + d as u64;
                limit = limit * 16;
            },
            None => {
                proof {
                    lemma_hex_number_fails(s@, i + 1);
                }
                return None;
            },
        }
        i = i + 1;
    }
    assert(s@.take(i as int) =~= s@);
    Some(n as u16)
}

/// A part that is no group leaves the whole unreadable.
proof fn lemma_plain_groups_fail(parts: Seq<Seq<char>>, upto: int)
    requires
        0 <= upto <= parts.len(),
        plain_groups(parts.take(upto)) is None,
    ensures
        plain_groups(parts) is None,
    decreases parts.len(),
{
    if upto < parts.len() {
        assert(parts.drop_last().take(upto) =~= parts.take(upto));
        lemma_plain_groups_fail(parts.drop_last(), upto);
    } else {
        assert(parts.take(upto) =~= parts);
    }
}

/// What an optional list is.
pub open spec fn groups_view(r: Option<Vec<u16>>) -> Option<Seq<u16>> {
    match r {
        Some(groups) => Some(groups@),
        None => None,
    }
}

/// Reads groups, one of each of the first parts.
fn read_groups(parts: &Vec<Vec<char>>, count: usize) -> (r: Option<Vec<u16>>)
    requires
        count <= parts@.len(),
    ensures
        groups_view(r) == plain_groups(text::views(parts@).take(count as int)),
        r matches Some(groups) ==> groups@.len() == count,
{
    let ghost all = text::views(parts@).take(count as int);
    let mut groups: Vec<u16> = Vec::new();
    let mut i: usize = 0;
    assert(all.take(0) =~= Seq::empty());
    while i < count
        invariant
            i <= count <= parts@.len(),
            all == text::views(parts@).take(count as int),
            plain_groups(all.take(i as int)) == Some(groups@),
            groups@.len() == i,
        decreases count - i,
    {
        assert(all.take(i + 1).drop_last() =~= all.take(i as int));
        assert(all.take(i + 1).last() == parts@[i as int]@);
        match read_group(parts[i].as_slice()) {
            Some(group) => groups.push(group),
            None => {
                proof {
                    lemma_plain_groups_fail(all, i + 1);
                }
                return None;
            },
        }
        i = i + 1;
    }
    assert(all.take(i as int) =~= all);
    Some(groups)
}

/// Cuts a text at its colons.
fn read_parts(s: &[char]) -> (r: Vec<Vec<char>>)
    ensures
        text::views(r@) == colon_parts(s@),
{
    if s.len() == 0 {
        let parts: Vec<Vec<char>> = Vec::new();
        assert(text::views(parts@) =~= colon_parts(s@));
        parts
    } else {
        text::split(s, ':')
    }
}

/// Reads groups, the last of which may be an IPv4 address.
fn read_ending(s: &[char]) -> (r: Option<Vec<u16>>)
    ensures
        groups_view(r) == ending_groups(colon_parts(s@)),
{
    let parts = read_parts(s);
    let ghost all = text::views(parts@);
    let count: usize = parts.len();
    assert(all.len() == count);
    if count > 0 {
        assert(all.last() == parts@[count - 1]@);
        if let Some(n) = read_v4(parts[count - 1].as_slice()) {
            assert(all.take(count - 1) =~= all.drop_last());
            return match read_groups(&parts, count - 1) {
                Some(groups) => {
                    let mut groups = groups;
                    groups.push((n / 0x1_0000) as u16);
                    groups.push((n % 0x1_0000) as u16);
                    Some(groups)
                },
                None => None,
            };
        }
    }
    assert(all.take(count as int) =~= all);
    read_groups(&parts, count)
}

/// Finds two colons that follow one another.
fn find_double_colon(s: &[char]) -> (r: usize)
    ensures
        r == double_colon(s@),
        r <= s@.len(),
        r < s@.len() ==> r + 2 <= s@.len(),
{
    let mut i: usize = 0;
    assert(s@.skip(0) =~= s@);
    while s.len() - i >= 2
        invariant
            i <= s@.len(),
            double_colon(s@) == i + double_colon(s@.skip(i as int)),
        decreases s@.len() - i,
    {
        if s[i] == ':' && s[i + 1] == ':' {
            return i;
        }
        assert(s@.skip(i as int).skip(1) =~= s@.skip(i + 1));
        i = i + 1;
    }
    s.len()
}

/// Groups write a number of as many bits.
proof fn lemma_groups_number_bound(groups: Seq<u16>)
    ensures
        groups_number(groups) < power256(groups.len() * 2),
    decreases groups.len(),
{
    if groups.len() > 0 {
        lemma_groups_number_bound(groups.drop_last());
        let n = groups.len() * 2;
        assert(power256(n) == power256((n - 1) as nat) * 256);
        assert(power256((n - 1) as nat) == power256((n - 2) as nat) * 256);
    }
}

/// Joins eight groups into a number.
fn join_groups(groups: &[u16]) -> (r: u128)
    requires
        groups@.len() == 8,
    ensures
        r == groups_number(groups@),
{
    let mut n: u128 = 0;
    let mut i: usize = 0;
    while i < 8
        invariant
            i <= 8,
            groups@.len() == 8,
            n == groups_number(groups@.take(i as int)),
        decreases 8 - i,
    {
        let ghost upto = groups@.take(i + 1);
        assert(upto.drop_last() =~= groups@.take(i as int));
        proof {
            lemma_groups_number_bound(upto);
            lemma_power256_grows(upto.len() * 2, 16);
            lemma_address_sizes();
        }
        n = n * 0x1_0000 + groups[i] as u128;
        i = i + 1;
    }
    assert(groups@.take(8) =~= groups@);
    n
}

/// Reads an IPv6 address.
pub fn read_v6(s: &[char]) -> (r: Option<u128>)
    ensures
        r == v6_value(s@),
{
    let at = find_double_colon(s);
    if at == s.len() {
        return match read_ending(s) {
            Some(groups) => if groups.len() == 8 {
                proof {
                    lemma_groups_number_bound(groups@);
                }
                Some(join_groups(groups.as_slice()))
            } else {
                None
            },
            None => None,
        };
    }
    let head_text = slice_subrange(s, 0, at);
    let tail_text = slice_subrange(s, at + 2, s.len());
    assert(head_text@ =~= s@.take(at as int));
    assert(tail_text@ =~= s@.skip(at + 2));
    let parts = read_parts(head_text);
    assert(text::views(parts@).take(parts@.len() as int) =~= text::views(parts@));
    match (read_groups(&parts, parts.len()), read_ending(tail_text)) {
        (Some(head), Some(tail)) => {
            if head.len() > 7 || tail.len() > 7 - head.len() {
                return None;
            }
            let mut groups: Vec<u16> = Vec::new();
            let mut i: usize = 0;
            let zeros: usize = 8 - head.len() - tail.len();
            while i < 8
                invariant
                    i <= 8,
                    head@.len() + zeros + tail@.len() == 8,
                    groups@ == (head@ + Seq::new(zeros as nat, |k: int| 0u16) + tail@).take(
                        i as int,
                    ),
                decreases 8 - i,
            {
                if i < head.len() {
                    groups.push(head[i]);
                } else if i < head.len() + zeros {
                    groups.push(0);
                } else {
                    groups.push(tail[i - head.len() - zeros]);
                }
                assert(groups@ =~= (head@ + Seq::new(zeros as nat, |k: int| 0u16) + tail@).take(
                    i + 1,
                ));
                i = i + 1;
            }
            assert(groups@ =~= head@ + Seq::new(zeros as nat, |k: int| 0u16) + tail@);
            Some(join_groups(groups.as_slice()))
        },
        _ => None,
    }
}

/// Reads an IPv6 address with its scope.
fn read_scoped(s: &[char]) -> (r: Option<(u128, u32)>)
    ensures
        r == scoped_value(s@),
{
    let at = text::find(s, '%');
    let head = slice_subrange(s, 0, at);
    assert(head@ =~= s@.take(at as int));
    match read_v6(head) {
        None => None,
        Some(n) => {
            if at == s.len() {
                return Some((n, 0));
            }
            let tail = slice_subrange(s, at + 1, s.len());
            assert(tail@ =~= s@.skip(at + 1));
            match text::read_digits(tail, u32::MAX as u64) {
                Some(scope) => Some((n, scope as u32)),
                None => None,
            }
        },
    }
}

impl IpAddr {
    /// Reads an address.
    pub fn parse(s: &[char]) -> (r: Option<IpAddr>)
        ensures
            r == address_value(s@),
    {
        match read_v4(s) {
            Some(n) => Some(IpAddr::V4(n)),
            None => match read_v6(s) {
                Some(n) => Some(IpAddr::V6(n)),
                None => None,
            },
        }
    }

    /// Reads an address from a text.
    pub fn from_text(s: &str) -> (r: Option<IpAddr>)
        ensures
            r == address_value(s@),
    {
        IpAddr::parse(text::chars_of(s).as_slice())
    }
}

impl SocketAddr {
    /// Reads an address and a port from a text.
    pub fn from_text(s: &str) -> (r: Option<SocketAddr>)
        ensures
            r == socket_value(s@),
    {
        SocketAddr::parse(text::chars_of(s).as_slice())
    }

    /// Reads an address and a port.
    pub fn parse(s: &[char]) -> (r: Option<SocketAddr>)
        ensures
            r == socket_value(s@),
    {
        if s.len() > 0 && s[0] == '[' {
            let body = slice_subrange(s, 1, s.len());
            assert(body@ =~= s@.skip(1));
            let at = text::find(body, ']');
            if body.len() - at < 2 || body[at + 1] != ':' {
                return None;
            }
            let inside = slice_subrange(body, 0, at);
            let behind = slice_subrange(body, at + 2, body.len());
            assert(inside@ =~= body@.take(at as int));
            assert(behind@ =~= body@.skip(at + 2));
            match (read_scoped(inside), text::read_digits(behind, 65535)) {
                (Some((n, scope_id)), Some(port)) => Some(
                    SocketAddr { ip: IpAddr::V6(n), scope_id, port: port as u16 },
                ),
                _ => None,
            }
        } else {
            let at = text::find(s, ':');
            if at == s.len() {
                return None;
            }
            let head = slice_subrange(s, 0, at);
            let tail = slice_subrange(s, at + 1, s.len());
            assert(head@ =~= s@.take(at as int));
            assert(tail@ =~= s@.skip(at + 1));
            match (read_v4(head), text::read_digits(tail, 65535)) {
                (Some(n), Some(port)) => Some(
                    SocketAddr { ip: IpAddr::V4(n), scope_id: 0, port: port as u16 },
                ),
                _ => None,
            }
        }
    }
}

// ---------------------------------------------------------------------------
// Laws
// ---------------------------------------------------------------------------

/// A number below 256 takes one to three digits.
proof fn lemma_octet(n: nat)
    requires
        n < 256,
    ensures
        octet_value(text::decimal(n)) == Some(n),
{
    text::lemma_decimal(n);
    reveal_with_fuel(text::numeral, 4);
    assert(text::decimal(n).len() <= 3);
}

/// Digits hold no separator.
proof fn lemma_digits_hold_no(s: Seq<char>, sep: char)
    requires
        text::all_digits(s),
        !text::is_digit(sep),
    ensures
        !s.contains(sep),
{
    if s.contains(sep) {
        let i = choose|i: int| 0 <= i < s.len() && s[i] == sep;
        assert(text::is_digit(s[i]));
    }
}

/// The pieces of a text with a separator and one more piece behind it.
proof fn lemma_pieces_push(head: Seq<char>, sep: char, last: Seq<char>)
    requires
        !last.contains(sep),
    ensures
        text::pieces(head.push(sep) + last, sep) == text::pieces(head, sep).push(last),
{
    text::lemma_pieces_join(head, sep, last);
    text::lemma_pieces_one(last, sep);
    assert(text::pieces(head, sep) + seq![last] =~= text::pieces(head, sep).push(last));
}

/// A number below 256 is one piece between dots.
proof fn lemma_octet_piece(n: nat)
    requires
        n < 256,
    ensures
        octet_value(text::decimal(n)) == Some(n),
        !text::decimal(n).contains('.'),
{
    text::lemma_decimal(n);
    lemma_octet(n);
    lemma_digits_hold_no(text::decimal(n), '.');
}

/// Four pieces with dots between them are four pieces.
proof fn lemma_four_pieces(a: Seq<char>, b: Seq<char>, c: Seq<char>, d: Seq<char>)
    requires
        !a.contains('.'),
        !b.contains('.'),
        !c.contains('.'),
        !d.contains('.'),
    ensures
        text::pieces(a.push('.') + b.push('.') + c.push('.') + d, '.') == seq![a, b, c, d],
{
    text::lemma_pieces_one(a, '.');
    lemma_pieces_push(a, '.', b);
    let ab = a.push('.') + b;
    lemma_pieces_push(ab, '.', c);
    let abc = ab.push('.') + c;
    lemma_pieces_push(abc, '.', d);
    assert(a.push('.') + b.push('.') + c.push('.') + d =~= abc.push('.') + d);
    assert(text::pieces(abc.push('.') + d, '.') =~= seq![a, b, c, d]);
}

/// The four numbers of an address make it up.
proof fn lemma_octets(n: u32)
    ensures
        n / 0x100_0000 < 256,
        (n / 0x100_0000) * 0x100_0000 + (n / 0x1_0000 % 256) * 0x1_0000 + (n / 0x100 % 256) * 0x100
            + (n % 256) == n,
{
    assert(n / 0x100_0000 == n / 0x1_0000 / 256);
    assert(n / 0x1_0000 == n / 0x100 / 256);
    assert(n / 0x1_0000 == (n / 0x1_0000 / 256) * 256 + n / 0x1_0000 % 256);
    assert(n / 0x100 == (n / 0x100 / 256) * 256 + n / 0x100 % 256);
    assert(n == (n / 256) * 256 + n % 256);
}

/// Four numbers with dots between them are read as an address.
proof fn lemma_four_octets(a: nat, b: nat, c: nat, d: nat)
    requires
        a < 256,
        b < 256,
        c < 256,
        d < 256,
    ensures
        v4_value(
            text::decimal(a).push('.') + text::decimal(b).push('.') + text::decimal(c).push('.')
                + text::decimal(d),
        ) == Some((a * 0x100_0000 + b * 0x1_0000 + c * 0x100 + d) as u32),
{
    lemma_octet_piece(a);
    lemma_octet_piece(b);
    lemma_octet_piece(c);
    lemma_octet_piece(d);
    let (p, q, r, s) = (text::decimal(a), text::decimal(b), text::decimal(c), text::decimal(d));
    lemma_four_pieces(p, q, r, s);
    let parts = seq![p, q, r, s];
    assert(parts.len() == 4 && parts[0] == p && parts[1] == q && parts[2] == r && parts[3] == s);
}

/// The text of an IPv4 address reads back as that address.
pub proof fn law_v4_reads_back(n: u32)
    ensures
        v4_value(v4_text(n)) == Some(n),
{
    lemma_octets(n);
    lemma_four_octets(
        (n / 0x100_0000) as nat,
        (n / 0x1_0000 % 256) as nat,
        (n / 0x100 % 256) as nat,
        (n % 256) as nat,
    );
}

/// The text of an IPv4 address holds digits and dots only.
proof fn lemma_v4_text_plain(n: u32, c: char)
    requires
        !text::is_digit(c),
        c != '.',
    ensures
        !v4_text(n).contains(c),
        v4_text(n).len() > 0,
        text::is_digit(v4_text(n)[0]),
{
    let t = v4_text(n);
    let a = text::decimal((n / 0x100_0000) as nat);
    text::lemma_decimal((n / 0x100_0000) as nat);
    text::lemma_decimal((n / 0x1_0000 % 256) as nat);
    text::lemma_decimal((n / 0x100 % 256) as nat);
    text::lemma_decimal((n % 256) as nat);
    assert(t[0] == a[0]);
    assert(text::is_digit(a[0]));
    assert forall|i: int| 0 <= i < t.len() implies #[trigger] t[i] == '.' || text::is_digit(
        t[i],
    ) by {}
}

/// The text of an IPv4 address alone is not that of an address and a port.
pub proof fn law_v4_text_is_no_socket(n: u32)
    ensures
        socket_value(v4_text(n)) is None,
{
    lemma_v4_text_plain(n, ':');
    text::lemma_position(v4_text(n), ':');
}

/// The text of an IPv4 address and a port reads back as them.
pub proof fn law_v4_socket_reads_back(n: u32, port: u16)
    ensures
        socket_value(socket_text(SocketAddr { ip: IpAddr::V4(n), scope_id: 0, port })) == Some(
            SocketAddr { ip: IpAddr::V4(n), scope_id: 0, port },
        ),
{
    let a = SocketAddr { ip: IpAddr::V4(n), scope_id: 0, port };
    let host = v4_text(n);
    let tail = text::decimal(port as nat);
    let s = socket_text(a);
    law_v4_reads_back(n);
    text::lemma_decimal(port as nat);
    lemma_v4_text_plain(n, ':');
    text::lemma_position_behind(host, ':', tail);
    assert(s[0] == host[0]);
    assert(s.take(host.len() as int) =~= host);
    assert(s.skip(host.len() as int + 1) =~= tail);
}

/// The last bytes of a number, most significant first.
pub open spec fn number_bytes(n: nat, count: nat) -> Seq<u8>
    decreases count,
{
    if count == 0 {
        Seq::empty()
    } else {
        number_bytes(n / 256, (count - 1) as nat).push((n % 256) as u8)
    }
}

/// An address as it stands in a packet: four bytes or sixteen, in network
/// order.
pub open spec fn address_bytes(ip: IpAddr) -> Seq<u8> {
    match ip {
        IpAddr::V4(n) => number_bytes(n as nat, 4),
        IpAddr::V6(n) => number_bytes(n as nat, 16),
    }
}

/// The bytes of a number write it.
proof fn lemma_number_bytes(n: nat, count: nat)
    requires
        n < power256(count),
    ensures
        number_bytes(n, count).len() == count,
        bytes_number(number_bytes(n, count)) == n,
    decreases count,
{
    if count > 0 {
        assert(power256(count) == power256((count - 1) as nat) * 256);
        lemma_number_bytes(n / 256, (count - 1) as nat);
        let before = number_bytes(n / 256, (count - 1) as nat);
        assert(number_bytes(n, count).drop_last() =~= before);
    }
}

/// An address is read back of the bytes that carry it.
pub proof fn law_address_bytes_read_back(ip: IpAddr)
    ensures
        address_of(address_bytes(ip)) == ip,
        ip is V4 ==> address_bytes(ip).len() == 4,
        ip is V6 ==> address_bytes(ip).len() == 16,
{
    lemma_address_sizes();
    match ip {
        IpAddr::V4(n) => lemma_number_bytes(n as nat, 4),
        IpAddr::V6(n) => lemma_number_bytes(n as nat, 16),
    }
}

/// Four bytes make up the number that they write.
proof fn lemma_four_bytes(a: u8, b: u8, c: u8, d: u8) -> (n: u32)
    ensures
        address_of(seq![a, b, c, d]) == IpAddr::V4(n),
        n == a * 0x100_0000 + b * 0x1_0000 + c * 0x100 + d,
        n / 0x100_0000 == a,
        n / 0x1_0000 % 256 == b,
        n / 0x100 % 256 == c,
        n % 256 == d,
{
    let s = seq![a, b, c, d];
    let abc = s.drop_last();
    let ab = abc.drop_last();
    let one = ab.drop_last();
    assert(one.drop_last() =~= Seq::empty());
    assert(bytes_number(Seq::empty()) == 0);
    assert(bytes_number(one) == a);
    assert(bytes_number(ab) == a * 256 + b);
    assert(bytes_number(abc) == (a * 256 + b) * 256 + c);
    let n = (((a * 256 + b) * 256 + c) * 256 + d) as u32;
    assert(bytes_number(s) == n);
    assert(n / 0x100 == (a * 256 + b) * 256 + c);
    assert(n / 0x1_0000 == a * 256 + b);
    n
}

/// An IPv4 address shows its four bytes, in their order, with dots between
/// them.
pub proof fn law_v4_text_shows_its_bytes(a: u8, b: u8, c: u8, d: u8)
    ensures
        address_text(address_of(seq![a, b, c, d])) == text::decimal(a as nat).push('.')
            + text::decimal(b as nat).push('.') + text::decimal(c as nat).push('.')
            + text::decimal(d as nat),
{
    let n = lemma_four_bytes(a, b, c, d);
    assert((n / 0x100_0000) as nat == a as nat);
    assert((n / 0x1_0000 % 256) as nat == b as nat);
    assert((n / 0x100 % 256) as nat == c as nat);
    assert((n % 256) as nat == d as nat);
}

/// A character of a small hexadecimal number.
pub open spec fn is_hex(c: char) -> bool {
    '0' <= c <= '9' || 'a' <= c <= 'f'
}

/// A text of such characters.
pub open spec fn all_hex(s: Seq<char>) -> bool {
    forall|i: int| 0 <= i < s.len() ==> is_hex(#[trigger] s[i])
}

/// A hexadecimal number reads back.
proof fn lemma_hex_number(n: nat)
    ensures
        hex_number(text::numeral(n, 16)) == Some(n),
        all_hex(text::numeral(n, 16)),
        text::numeral(n, 16).len() > 0,
    decreases n,
{
    let s = text::numeral(n, 16);
    if n < 16 {
        assert(s.drop_last() =~= Seq::empty());
        assert(hex_number(s.drop_last()) == Some(0nat));
    } else {
        lemma_hex_number(n / 16);
        assert(s.drop_last() =~= text::numeral(n / 16, 16));
        assert(n / 16 * 16 + n % 16 == n);
    }
}

/// A group takes one to four digits and reads back.
proof fn lemma_group(g: u16)
    ensures
        group_value(text::numeral(g as nat, 16)) == Some(g),
        all_hex(text::numeral(g as nat, 16)),
        text::numeral(g as nat, 16).len() > 0,
{
    lemma_hex_number(g as nat);
    reveal_with_fuel(text::numeral, 5);
    assert(text::numeral(g as nat, 16).len() <= 4);
}

/// Hexadecimal digits hold nothing else.
proof fn lemma_hex_holds_no(s: Seq<char>, c: char)
    requires
        all_hex(s),
        !is_hex(c),
    ensures
        !s.contains(c),
{
    if s.contains(c) {
        let i = choose|i: int| 0 <= i < s.len() && s[i] == c;
        assert(is_hex(s[i]));
    }
}

/// Groups in hexadecimal, one by one.
pub open spec fn numerals(groups: Seq<u16>) -> Seq<Seq<char>> {
    groups.map_values(|g: u16| text::numeral(g as nat, 16))
}

/// Two colons follow one another.
pub open spec fn colon_pair(s: Seq<char>, at: int) -> bool {
    s[at] == ':' && s[at + 1] == ':'
}

/// Colons stand alone, and neither first nor last.
pub open spec fn inner_colons(s: Seq<char>) -> bool {
    &&& forall|i: int| 0 <= i < s.len() - 1 ==> !#[trigger] colon_pair(s, i)
    &&& s.len() > 0 ==> s[0] != ':' && s.last() != ':'
}

/// A text of hexadecimal digits and colons.
pub open spec fn hex_and_colons(s: Seq<char>) -> bool {
    forall|i: int| 0 <= i < s.len() ==> is_hex(#[trigger] s[i]) || s[i] == ':'
}

/// What groups look like: digits with colons between them, which cut the text
/// into the groups again.
proof fn lemma_groups_text(groups: Seq<u16>)
    ensures
        colon_parts(groups_text(groups)) == numerals(groups),
        inner_colons(groups_text(groups)),
        hex_and_colons(groups_text(groups)),
        groups.len() > 0 ==> groups_text(groups).len() > 0,
    decreases groups.len(),
{
    let s = groups_text(groups);
    if groups.len() == 0 {
        assert(colon_parts(s) =~= numerals(groups));
    } else {
        let last = text::numeral(groups.last() as nat, 16);
        lemma_group(groups.last());
        lemma_hex_holds_no(last, ':');
        assert(is_hex(last[0]) && is_hex(last.last()));
        if groups.len() == 1 {
            text::lemma_pieces_one(last, ':');
            assert(numerals(groups) =~= seq![last]);
            assert forall|i: int| 0 <= i < s.len() - 1 implies !#[trigger] colon_pair(s, i) by {
                assert(is_hex(s[i]));
            }
        } else {
            let before = groups.drop_last();
            let head = groups_text(before);
            lemma_groups_text(before);
            lemma_pieces_push(head, ':', last);
            assert(numerals(groups) =~= numerals(before).push(last));
            assert forall|i: int| 0 <= i < s.len() - 1 implies !#[trigger] colon_pair(s, i) by {
                if i < head.len() - 1 {
                    assert(!colon_pair(head, i));
                } else if i == head.len() - 1 {
                    assert(s[i] == head.last());
                } else if i == head.len() {
                    assert(s[i + 1] == last[0]);
                } else {
                    assert(s[i] == last[i - head.len() - 1]);
                }
            }
            assert(s[0] == head[0]);
            assert(s.last() == last.last());
        }
    }
}

/// Groups read back.
proof fn lemma_plain_groups(groups: Seq<u16>)
    ensures
        plain_groups(numerals(groups)) == Some(groups),
    decreases groups.len(),
{
    if groups.len() == 0 {
        assert(groups =~= Seq::empty());
    } else {
        lemma_plain_groups(groups.drop_last());
        lemma_group(groups.last());
        assert(numerals(groups).drop_last() =~= numerals(groups.drop_last()));
        assert(groups.drop_last().push(groups.last()) =~= groups);
    }
}

/// Groups read back at the end of an address: none is taken for IPv4.
proof fn lemma_ending_groups(groups: Seq<u16>)
    ensures
        ending_groups(numerals(groups)) == Some(groups),
{
    lemma_plain_groups(groups);
    if groups.len() > 0 {
        let last = text::numeral(groups.last() as nat, 16);
        lemma_group(groups.last());
        lemma_hex_holds_no(last, '.');
        text::lemma_pieces_one(last, '.');
        assert(numerals(groups).last() == last);
    }
}

/// Two colons are found behind a text without such.
proof fn lemma_double_colon(head: Seq<char>, tail: Seq<char>)
    requires
        forall|i: int| 0 <= i < head.len() - 1 ==> !#[trigger] colon_pair(head, i),
        head.len() > 0 ==> head.last() != ':',
    ensures
        double_colon(head + seq![':', ':'] + tail) == head.len(),
    decreases head.len(),
{
    let s = head + seq![':', ':'] + tail;
    if head.len() > 0 {
        let rest = head.skip(1);
        assert forall|i: int| 0 <= i < rest.len() - 1 implies !#[trigger] colon_pair(rest, i) by {
            assert(!colon_pair(head, i + 1));
        }
        lemma_double_colon(rest, tail);
        assert(s.skip(1) =~= rest + seq![':', ':'] + tail);
        if head.len() > 1 {
            assert(!colon_pair(head, 0));
            assert(s[1] == head[1]);
        }
    }
}

/// There is nothing to find in such a text alone.
proof fn lemma_no_double_colon(s: Seq<char>)
    requires
        forall|i: int| 0 <= i < s.len() - 1 ==> !#[trigger] colon_pair(s, i),
    ensures
        double_colon(s) == s.len(),
    decreases s.len(),
{
    if s.len() >= 2 {
        let rest = s.skip(1);
        assert forall|i: int| 0 <= i < rest.len() - 1 implies !#[trigger] colon_pair(rest, i) by {
            assert(!colon_pair(s, i + 1));
        }
        lemma_no_double_colon(rest);
        assert(!colon_pair(s, 0));
    }
}

/// A run of zeros is one.
proof fn lemma_zeros_from(groups: Seq<u16>, at: int)
    requires
        0 <= at <= groups.len(),
    ensures
        0 <= zeros_from(groups, at) <= groups.len() - at,
        forall|i: int| at <= i < at + zeros_from(groups, at) ==> #[trigger] groups[i] == 0,
    decreases groups.len() - at,
{
    if at < groups.len() && groups[at] == 0 {
        lemma_zeros_from(groups, at + 1);
    }
}

/// So is the longest.
proof fn lemma_longest_zeros(groups: Seq<u16>, upto: int)
    requires
        0 <= upto <= groups.len(),
    ensures
        ({
            let (at, len) = longest_zeros(groups, upto);
            &&& 0 <= at
            &&& 0 <= len
            &&& at + len <= groups.len()
            &&& forall|i: int| at <= i < at + len ==> #[trigger] groups[i] == 0
        }),
    decreases upto,
{
    if upto > 0 {
        lemma_longest_zeros(groups, upto - 1);
        lemma_zeros_from(groups, upto - 1);
    }
}

/// The groups of a number make it up.
proof fn lemma_number_groups(n: nat, count: nat)
    requires
        n < power256(count * 2),
    ensures
        number_groups(n, count).len() == count,
        groups_number(number_groups(n, count)) == n,
    decreases count,
{
    if count > 0 {
        let m = count * 2;
        assert(power256(m) == power256((m - 1) as nat) * 256);
        assert(power256((m - 1) as nat) == power256((m - 2) as nat) * 256);
        lemma_number_groups(n / 0x1_0000, (count - 1) as nat);
        let before = number_groups(n / 0x1_0000, (count - 1) as nat);
        assert(number_groups(n, count).drop_last() =~= before);
    }
}

/// Eight groups read back, with or without two colons in place of zeros.
proof fn lemma_v6_groups(groups: Seq<u16>, at: int, len: int)
    requires
        groups.len() == 8,
        0 <= at,
        1 <= len,
        at + len <= 8,
        forall|i: int| at <= i < at + len ==> #[trigger] groups[i] == 0,
    ensures
        v6_groups(
            groups_text(groups.take(at)) + seq![':', ':'] + groups_text(groups.skip(at + len)),
        ) == Some(groups),
{
    let head = groups.take(at);
    let tail = groups.skip(at + len);
    let s = groups_text(head) + seq![':', ':'] + groups_text(tail);
    lemma_groups_text(head);
    lemma_groups_text(tail);
    lemma_plain_groups(head);
    lemma_ending_groups(tail);
    lemma_double_colon(groups_text(head), groups_text(tail));
    assert(s.take(groups_text(head).len() as int) =~= groups_text(head));
    assert(s.skip(groups_text(head).len() as int + 2) =~= groups_text(tail));
    assert(head + Seq::new(len as nat, |i: int| 0u16) + tail =~= groups);
    assert(Seq::new((8 - head.len() - tail.len()) as nat, |i: int| 0u16) =~= Seq::new(
        len as nat,
        |i: int| 0u16,
    ));
}

/// An IPv4 address mapped into IPv6 reads back.
proof fn lemma_mapped_reads_back(n: u128)
    requires
        n / 0x1_0000_0000 == 0xffff,
    ensures
        v6_value(v6_text(n)) == Some(n),
{
    let m = (n % 0x1_0000_0000) as u32;
    let host = v4_text(m);
    let s = v6_text(n);
    let label = seq!['f', 'f', 'f', 'f'];
    law_v4_reads_back(m);
    lemma_v4_text_plain(m, ':');
    assert(s[0] == ':' && s[1] == ':');
    assert(double_colon(s) == 0);
    assert(s.take(0) =~= Seq::empty());
    assert(s.skip(2) =~= label.push(':') + host);
    assert(all_hex(label));
    lemma_hex_holds_no(label, ':');
    text::lemma_pieces_one(label, ':');
    lemma_pieces_push(label, ':', host);
    let parts = seq![label].push(host);
    assert(colon_parts(s.skip(2)) == parts);
    assert(parts.drop_last() =~= seq![label]);
    reveal_with_fuel(hex_number, 5);
    assert(hex_number(label) == Some(0xffffnat)) by {
        assert(label.drop_last() =~= seq!['f', 'f', 'f']);
        assert(label.drop_last().drop_last() =~= seq!['f', 'f']);
        assert(label.drop_last().drop_last().drop_last() =~= seq!['f']);
        assert(label.drop_last().drop_last().drop_last().drop_last() =~= Seq::empty());
    }
    assert(seq![label].drop_last() =~= Seq::empty());
    let (high, low) = ((m / 0x1_0000) as u16, (m % 0x1_0000) as u16);
    let ending = seq![0xffffu16].push(high).push(low);
    assert(plain_groups(seq![label]) == Some(seq![0xffffu16])) by {
        assert(Seq::<u16>::empty().push(0xffffu16) =~= seq![0xffffu16]);
    }
    assert(ending_groups(parts) == Some(ending));
    let zeros = Seq::new(5, |i: int| 0u16);
    let groups = Seq::<u16>::empty() + zeros + ending;
    assert(v6_groups(s) == Some(groups)) by {
        assert(Seq::new((8 - 0 - ending.len()) as nat, |i: int| 0u16) =~= zeros);
    }
    lemma_zeros_number(5);
    let mapped = zeros.push(0xffffu16);
    assert(groups =~= mapped.push(high).push(low));
    assert(groups.drop_last() =~= mapped.push(high));
    assert(mapped.push(high).drop_last() =~= mapped);
    assert(mapped.drop_last() =~= zeros);
    assert(groups_number(mapped) == 0xffff);
    assert(groups_number(mapped.push(high)) == 0xffff * 0x1_0000 + high);
    assert(groups_number(groups) == (0xffff * 0x1_0000 + high) * 0x1_0000 + low);
    assert(m == high * 0x1_0000 + low);
}

/// Zeros write nothing.
proof fn lemma_zeros_number(count: nat)
    ensures
        groups_number(Seq::new(count, |i: int| 0u16)) == 0,
    decreases count,
{
    if count > 0 {
        lemma_zeros_number((count - 1) as nat);
        assert(Seq::new(count, |i: int| 0u16).drop_last() =~= Seq::new(
            (count - 1) as nat,
            |i: int| 0u16,
        ));
    }
}

/// The text of an IPv6 address reads back as that address.
pub proof fn law_v6_reads_back(n: u128)
    ensures
        v6_value(v6_text(n)) == Some(n),
{
    if n / 0x1_0000_0000 == 0xffff {
        lemma_mapped_reads_back(n);
    } else {
        let groups = number_groups(n as nat, 8);
        lemma_address_sizes();
        lemma_number_groups(n as nat, 8);
        lemma_longest_zeros(groups, 8);
        let (at, len) = longest_zeros(groups, 8);
        if len > 1 {
            lemma_v6_groups(groups, at, len);
        } else {
            lemma_groups_text(groups);
            lemma_ending_groups(groups);
            lemma_no_double_colon(groups_text(groups));
        }
    }
}

/// A character of a text stands in one of its pieces.
proof fn lemma_pieces_hold(s: Seq<char>, sep: char, c: char)
    requires
        s.contains(c),
        c != sep,
    ensures
        exists|k: int| 0 <= k < text::pieces(s, sep).len() && text::pieces(s, sep)[k].contains(c),
    decreases s.len(),
{
    let i = choose|i: int| 0 <= i < s.len() && s[i] == c;
    let head = s.take(i);
    let tail = s.skip(i);
    lemma_pieces_reach(head, sep, tail, c);
    assert(head + tail =~= s);
}

/// The same, where the text is cut before the character.
proof fn lemma_pieces_reach(head: Seq<char>, sep: char, tail: Seq<char>, c: char)
    requires
        tail.len() > 0,
        tail[0] == c,
        c != sep,
    ensures
        exists|k: int|
            0 <= k < text::pieces(head + tail, sep).len() && text::pieces(head + tail, sep)[k].contains(
                c,
            ),
    decreases tail.len(),
{
    let s = head + tail;
    let parts = text::pieces(s, sep);
    let before = text::pieces(s.drop_last(), sep);
    text::lemma_pieces_not_empty(s.drop_last(), sep);
    if tail.len() == 1 {
        assert(s.last() == c);
        let k = parts.len() - 1;
        assert(parts[k].last() == c);
        assert(parts[k][parts[k].len() - 1] == c);
        assert(parts[k].contains(c));
    } else {
        lemma_pieces_reach(head, sep, tail.drop_last(), c);
        assert(s.drop_last() =~= head + tail.drop_last());
        let k = choose|k: int| 0 <= k < before.len() && before[k].contains(c);
        let j = choose|j: int| 0 <= j < before[k].len() && before[k][j] == c;
        assert(parts[k][j] == c);
        assert(parts[k].contains(c));
    }
}

/// No text with a colon is an IPv4 address.
proof fn lemma_colon_is_not_v4(s: Seq<char>)
    requires
        s.contains(':'),
    ensures
        v4_value(s) is None,
{
    lemma_pieces_hold(s, '.', ':');
    let parts = text::pieces(s, '.');
    let k = choose|k: int| 0 <= k < parts.len() && parts[k].contains(':');
    if text::all_digits(parts[k]) {
        lemma_digits_hold_no(parts[k], ':');
    }
    assert(octet_value(parts[k]) is None);
}

/// What the text of an IPv6 address holds: colons, and no bracket, scope or
/// dot before its first colon.
proof fn lemma_v6_text(n: u128)
    ensures
        v6_text(n).contains(':'),
        !v6_text(n).contains('%'),
        !v6_text(n).contains(']'),
        v6_text(n)[0] != '[',
        !v6_text(n).take(text::position(v6_text(n), ':')).contains('.'),
{
    let s = v6_text(n);
    text::lemma_position(s, ':');
    let at = text::position(s, ':');
    if n / 0x1_0000_0000 == 0xffff {
        let m = (n % 0x1_0000_0000) as u32;
        let host = v4_text(m);
        let label = seq![':', ':', 'f', 'f', 'f', 'f', ':'];
        lemma_v4_text_plain(m, '%');
        lemma_v4_text_plain(m, ']');
        assert(s == label + host);
        assert(s[0] == ':');
        assert(at == 0);
        assert(s.take(0).len() == 0);
        lemma_join_holds_no(label, host, '%');
        lemma_join_holds_no(label, host, ']');
    } else {
        let groups = number_groups(n as nat, 8);
        lemma_address_sizes();
        lemma_number_groups(n as nat, 8);
        lemma_longest_zeros(groups, 8);
        let (start, len) = longest_zeros(groups, 8);
        lemma_groups_text(groups);
        lemma_groups_text(groups.take(start));
        lemma_groups_text(groups.skip(start + len));
        assert(hex_and_colons(s));
        if len > 1 {
            let head = groups_text(groups.take(start));
            assert(s[head.len() as int] == ':');
        } else {
            let head = groups_text(groups.drop_last());
            assert(s[head.len() as int] == ':');
        }
        assert(s.contains(':'));
        assert(s.len() > 0);
        assert(is_hex(s[0]) || s[0] == ':');
        assert forall|c: char| c == '%' || c == ']' || c == '.' implies !s.contains(c) by {
            if s.contains(c) {
                let i = choose|i: int| 0 <= i < s.len() && s[i] == c;
                assert(is_hex(s[i]) || s[i] == ':');
            }
        }
        let first = s.take(at);
        if first.contains('.') {
            let i = choose|i: int| 0 <= i < first.len() && first[i] == '.';
            assert(s[i] == '.');
        }
    }
}

/// What two texts do not hold, they do not hold together.
proof fn lemma_join_holds_no(a: Seq<char>, b: Seq<char>, c: char)
    requires
        !a.contains(c),
        !b.contains(c),
    ensures
        !(a + b).contains(c),
{
    let s = a + b;
    if s.contains(c) {
        let i = choose|i: int| 0 <= i < s.len() && s[i] == c;
        if i < a.len() {
            assert(a[i] == c);
        } else {
            assert(b[i - a.len()] == c);
        }
    }
}

/// The text of an address reads back as that address.
pub proof fn law_address_reads_back(ip: IpAddr)
    ensures
        address_value(address_text(ip)) == Some(ip),
{
    match ip {
        IpAddr::V4(n) => law_v4_reads_back(n),
        IpAddr::V6(n) => {
            law_v6_reads_back(n);
            lemma_v6_text(n);
            lemma_colon_is_not_v4(v6_text(n));
        },
    }
}

/// The text of an address alone is not that of an address and a port.
pub proof fn law_address_is_no_socket(ip: IpAddr)
    ensures
        socket_value(address_text(ip)) is None,
{
    match ip {
        IpAddr::V4(n) => law_v4_text_is_no_socket(n),
        IpAddr::V6(n) => {
            lemma_v6_text(n);
            let s = v6_text(n);
            let head = s.take(text::position(s, ':'));
            text::lemma_pieces_one(head, '.');
        },
    }
}

/// A text that reads as an IPv6 address still does so with a scope behind it.
proof fn lemma_scoped(host: Seq<char>, n: u128, scope_id: u32)
    requires
        v6_value(host) == Some(n),
        !host.contains('%'),
    ensures
        scoped_value(host) == Some((n, 0u32)),
        scoped_value(host.push('%') + text::decimal(scope_id as nat)) == Some((n, scope_id)),
{
    let scope = text::decimal(scope_id as nat);
    let s = host.push('%') + scope;
    text::lemma_position(host, '%');
    assert(host.take(host.len() as int) =~= host);
    text::lemma_decimal(scope_id as nat);
    text::lemma_position_behind(host, '%', scope);
    assert(s.take(host.len() as int) =~= host);
    assert(s.skip(host.len() as int + 1) =~= scope);
}

/// What stands in brackets before a port reads back.
proof fn lemma_bracketed(inside: Seq<char>, n: u128, scope_id: u32, port: u16)
    requires
        scoped_value(inside) == Some((n, scope_id)),
        !inside.contains(']'),
    ensures
        socket_value(seq!['['] + inside + seq![']', ':'] + text::decimal(port as nat)) == Some(
            SocketAddr { ip: IpAddr::V6(n), scope_id, port },
        ),
{
    let tail = text::decimal(port as nat);
    let s = seq!['['] + inside + seq![']', ':'] + tail;
    let body = s.skip(1);
    let at = inside.len() as int;
    text::lemma_decimal(port as nat);
    assert(body =~= inside.push(']') + (seq![':'] + tail));
    text::lemma_position_behind(inside, ']', seq![':'] + tail);
    assert(body[at + 1] == ':');
    assert(body.take(at) =~= inside);
    assert(body.skip(at + 2) =~= tail);
}

/// The text of an address and a port reads back as them. Only an IPv6 address
/// has a scope to write.
pub proof fn law_socket_reads_back(a: SocketAddr)
    requires
        a.ip is V4 ==> a.scope_id == 0,
    ensures
        socket_value(socket_text(a)) == Some(a),
{
    match a.ip {
        IpAddr::V4(n) => law_v4_socket_reads_back(n, a.port),
        IpAddr::V6(n) => {
            law_v6_reads_back(n);
            lemma_v6_text(n);
            lemma_v6_socket(v6_text(n), a, n);
        },
    }
}

/// The same, of any text that reads as an IPv6 address.
proof fn lemma_v6_socket(host: Seq<char>, a: SocketAddr, n: u128)
    requires
        a.ip == IpAddr::V6(n),
        v6_value(host) == Some(n),
        host == v6_text(n),
        !host.contains('%'),
        !host.contains(']'),
    ensures
        socket_value(socket_text(a)) == Some(a),
{
    let scope = text::decimal(a.scope_id as nat);
    let tail = text::decimal(a.port as nat);
    lemma_scoped(host, n, a.scope_id);
    if a.scope_id == 0 {
        lemma_bracketed(host, n, 0, a.port);
        assert(socket_text(a) =~= seq!['['] + host + seq![']', ':'] + tail);
    } else {
        let inside = host.push('%') + scope;
        text::lemma_decimal(a.scope_id as nat);
        lemma_digits_hold_no(scope, ']');
        lemma_join_holds_no(host, seq!['%'], ']');
        assert(host.push('%') =~= host + seq!['%']);
        lemma_join_holds_no(host.push('%'), scope, ']');
        lemma_bracketed(inside, n, a.scope_id, a.port);
        assert(socket_text(a) =~= seq!['['] + inside + seq![']', ':'] + tail);
    }
}

/// A character that the text of an address may hold.
pub open spec fn is_address_char(c: char) -> bool {
    is_hex(c) || c == ':' || c == '.'
}

/// The text of an address holds digits, small letters up to `f`, colons and
/// dots, and nothing else.
pub proof fn law_address_text_is_plain(ip: IpAddr)
    ensures
        address_text(ip).len() > 0,
        forall|i: int| 0 <= i < address_text(ip).len() ==> is_address_char(
            #[trigger] address_text(ip)[i],
        ),
{
    let s = address_text(ip);
    match ip {
        IpAddr::V4(n) => {
            lemma_v4_text_plain(n, ':');
            assert forall|i: int| 0 <= i < s.len() implies is_address_char(#[trigger] s[i]) by {
                lemma_v4_chars(n, i);
            }
        },
        IpAddr::V6(n) => {
            lemma_v6_text(n);
            if n / 0x1_0000_0000 == 0xffff {
                let m = (n % 0x1_0000_0000) as u32;
                let label = seq![':', ':', 'f', 'f', 'f', 'f', ':'];
                assert forall|i: int| 0 <= i < s.len() implies is_address_char(#[trigger] s[i]) by {
                    if i >= 7 {
                        assert(s[i] == v4_text(m)[i - 7]);
                        lemma_v4_chars(m, i - 7);
                    } else {
                        assert(s[i] == label[i]);
                    }
                }
            } else {
                let groups = number_groups(n as nat, 8);
                lemma_address_sizes();
                lemma_number_groups(n as nat, 8);
                lemma_longest_zeros(groups, 8);
                let (start, len) = longest_zeros(groups, 8);
                lemma_groups_text(groups);
                lemma_groups_text(groups.take(start));
                lemma_groups_text(groups.skip(start + len));
                assert(hex_and_colons(s));
            }
        },
    }
}

/// A character of an IPv4 address is a digit or a dot.
proof fn lemma_v4_chars(n: u32, i: int)
    requires
        0 <= i < v4_text(n).len(),
    ensures
        text::is_digit(v4_text(n)[i]) || v4_text(n)[i] == '.',
{
    let c = v4_text(n)[i];
    if !text::is_digit(c) && c != '.' {
        lemma_v4_text_plain(n, c);
        assert(v4_text(n).contains(c));
    }
}

/// An IPv4 address is read only of the text that is written of it: no leading
/// zero, nothing above 255, no part too few or too many.
pub proof fn law_only_its_own_text_is_an_ipv4_address(s: Seq<char>, n: u32)
    requires
        v4_value(s) == Some(n),
    ensures
        s == v4_text(n),
{
    let parts = text::pieces(s, '.');
    text::lemma_pieces_joined(s, '.');
    lemma_four_joined(parts);
    lemma_canonical_octet(parts[0]);
    lemma_canonical_octet(parts[1]);
    lemma_canonical_octet(parts[2]);
    lemma_canonical_octet(parts[3]);
    lemma_canonical_v4(
        octet_value(parts[0]).unwrap(),
        octet_value(parts[1]).unwrap(),
        octet_value(parts[2]).unwrap(),
        octet_value(parts[3]).unwrap(),
    );
}

/// A part of an IPv4 address is the number that it writes.
proof fn lemma_canonical_octet(s: Seq<char>)
    requires
        octet_value(s) is Some,
    ensures
        octet_value(s).unwrap() <= 255,
        s == text::decimal(octet_value(s).unwrap()),
{
    text::lemma_canonical_digits(s);
}

/// Four numbers are what is written of the address that they make.
proof fn lemma_canonical_v4(a: nat, b: nat, c: nat, d: nat)
    requires
        a <= 255,
        b <= 255,
        c <= 255,
        d <= 255,
    ensures
        v4_text((a * 0x100_0000 + b * 0x1_0000 + c * 0x100 + d) as u32) == text::decimal(a).push(
            '.',
        ) + text::decimal(b).push('.') + text::decimal(c).push('.') + text::decimal(d),
{
    let n = lemma_four_bytes(a as u8, b as u8, c as u8, d as u8);
    law_v4_text_shows_its_bytes(a as u8, b as u8, c as u8, d as u8);
    assert(n == (a * 0x100_0000 + b * 0x1_0000 + c * 0x100 + d) as u32);
}

/// Four parts with dots between them.
proof fn lemma_four_joined(parts: Seq<Seq<char>>)
    requires
        parts.len() == 4,
    ensures
        text::joined(parts, '.') == parts[0].push('.') + parts[1].push('.') + parts[2].push('.')
            + parts[3],
{
    assert(parts.drop_last() =~= parts.take(3));
    assert(parts.take(3).drop_last() =~= parts.take(2));
    assert(parts.take(2).drop_last() =~= parts.take(1));
    assert(text::joined(parts.take(1), '.') == parts[0]);
    assert(text::joined(parts.take(2), '.') == parts[0].push('.') + parts[1]);
    assert(text::joined(parts.take(3), '.') == text::joined(parts.take(2), '.').push('.')
        + parts[2]);
    assert(text::joined(parts, '.') == text::joined(parts.take(3), '.').push('.') + parts[3]);
    assert(text::joined(parts, '.') =~= parts[0].push('.') + parts[1].push('.') + parts[2].push('.')
        + parts[3]);
}

/// The bytes of an address are its groups, two by two.
pub open spec fn are_groups(groups: Seq<u16>, n: u128) -> bool {
    &&& groups.len() == 8
    &&& forall|i: int|
        0 <= i < 8 ==> address_bytes(IpAddr::V6(n))[2 * i] == (#[trigger] groups[i]) / 256
            && address_bytes(IpAddr::V6(n))[2 * i + 1] == groups[i] % 256
}

/// The groups of a number are its bytes, two by two.
proof fn lemma_groups_are_bytes(n: nat, count: nat)
    ensures
        number_groups(n, count).len() == count,
        number_bytes(n, 2 * count).len() == 2 * count,
        forall|i: int|
            0 <= i < count ==> number_bytes(n, 2 * count)[2 * i] == (#[trigger] number_groups(
                n,
                count,
            )[i]) / 256 && number_bytes(n, 2 * count)[2 * i + 1] == number_groups(n, count)[i]
                % 256,
    decreases count,
{
    if count > 0 {
        let high = n / 0x1_0000;
        let fewer = (count - 1) as nat;
        lemma_groups_are_bytes(high, fewer);
        let groups = number_groups(n, count);
        let all = number_bytes(n, 2 * count);
        assert(number_bytes(n / 256, (2 * count - 1) as nat) == number_bytes(
            n / 256 / 256,
            (2 * count - 2) as nat,
        ).push((n / 256 % 256) as u8));
        assert(n / 256 / 256 == high);
        assert(2 * fewer == 2 * count - 2);
        let before = number_bytes(high, 2 * fewer);
        assert(all == before.push((n / 256 % 256) as u8).push((n % 256) as u8));
        let g = (n % 0x1_0000) as u16;
        assert(g / 256 == n / 256 % 256 && g % 256 == n % 256);
        assert forall|i: int| 0 <= i < count implies all[2 * i] == (#[trigger] groups[i]) / 256
            && all[2 * i + 1] == groups[i] % 256 by {
            if i < fewer {
                assert(groups[i] == number_groups(high, fewer)[i]);
                assert(all[2 * i] == before[2 * i]);
                assert(all[2 * i + 1] == before[2 * i + 1]);
            }
        }
    }
}

/// The groups of an address are the only ones with its bytes.
proof fn lemma_groups_known(groups: Seq<u16>, n: u128)
    requires
        are_groups(groups, n),
    ensures
        groups == number_groups(n as nat, 8),
{
    lemma_groups_are_bytes(n as nat, 8);
    let own = number_groups(n as nat, 8);
    assert forall|i: int| 0 <= i < 8 implies groups[i] == own[i] by {
        assert(groups[i] / 256 == own[i] / 256 && groups[i] % 256 == own[i] % 256);
    }
    assert(groups =~= own);
}

/// Some groups in a row are zero.
pub open spec fn is_zero_run(groups: Seq<u16>, at: int, len: int) -> bool {
    &&& 0 <= at
    &&& 0 <= len
    &&& at + len <= groups.len()
    &&& forall|i: int| at <= i < at + len ==> #[trigger] groups[i] == 0
}

/// No run of zeros that starts here is longer than what is counted.
proof fn lemma_zeros_counted(groups: Seq<u16>, at: int, len: int)
    requires
        is_zero_run(groups, at, len),
    ensures
        len <= zeros_from(groups, at),
    decreases len,
{
    lemma_zeros_from(groups, at);
    if len > 0 {
        assert(groups[at] == 0);
        assert(is_zero_run(groups, at + 1, len - 1));
        lemma_zeros_counted(groups, at + 1, len - 1);
    }
}

/// The longest run found is the longest there is, and the first of those.
proof fn lemma_longest_is_first(groups: Seq<u16>, upto: int, at: int, len: int)
    requires
        0 <= at < upto <= groups.len(),
        is_zero_run(groups, at, len),
    ensures
        len <= longest_zeros(groups, upto).1,
        len == longest_zeros(groups, upto).1 && len > 0 ==> longest_zeros(groups, upto).0 <= at,
        longest_zeros(groups, upto).0 < upto || longest_zeros(groups, upto).0 == 0,
    decreases upto,
{
    lemma_zeros_counted(groups, at, len);
    if upto - 1 > at {
        lemma_longest_is_first(groups, upto - 1, at, len);
    } else {
        lemma_longest_starts(groups, upto - 1);
    }
}

/// The longest run starts before the limit.
proof fn lemma_longest_starts(groups: Seq<u16>, upto: int)
    requires
        0 <= upto <= groups.len(),
    ensures
        0 <= longest_zeros(groups, upto).0,
        longest_zeros(groups, upto).0 < upto || longest_zeros(groups, upto).0 == 0,
        0 <= longest_zeros(groups, upto).1,
    decreases upto,
{
    if upto > 0 {
        lemma_longest_starts(groups, upto - 1);
    }
}

/// Groups are written as their numbers with colons between them.
proof fn lemma_groups_joined(groups: Seq<u16>)
    ensures
        groups_text(groups) == text::joined(numerals(groups), ':'),
    decreases groups.len(),
{
    if groups.len() > 1 {
        lemma_groups_joined(groups.drop_last());
        assert(numerals(groups).drop_last() =~= numerals(groups.drop_last()));
        assert(numerals(groups).last() == text::numeral(groups.last() as nat, 16));
    }
}

/// The text of an IPv6 address shows its eight groups, with two colons in place
/// of the longest run of two or more zeros, the first of those that are equally
/// long. One mapped from IPv4 shows that address.
pub proof fn law_ipv6_text_is_canonical(n: u128, groups: Seq<u16>, at: int, len: int)
    requires
        are_groups(groups, n),
        is_zero_run(groups, at, len),
        len > 0 ==> at < 8,
        forall|i: int, m: int|
            #[trigger] is_zero_run(groups, i, m) ==> m <= len && (m == len && m > 0 ==> at <= i),
    ensures
        n / 0x1_0000_0000 == 0xffff ==> v6_text(n) == seq![':', ':', 'f', 'f', 'f', 'f', ':']
            + v4_text((n % 0x1_0000_0000) as u32),
        n / 0x1_0000_0000 != 0xffff && len > 1 ==> v6_text(n) == text::joined(
            numerals(groups.take(at)),
            ':',
        ) + seq![':', ':'] + text::joined(numerals(groups.skip(at + len)), ':'),
        n / 0x1_0000_0000 != 0xffff && len <= 1 ==> v6_text(n) == text::joined(
            numerals(groups),
            ':',
        ),
{
    lemma_groups_known(groups, n);
    lemma_longest_zeros(groups, 8);
    lemma_longest_starts(groups, 8);
    let (start, size) = longest_zeros(groups, 8);
    assert(is_zero_run(groups, start, size));
    if len > 0 {
        lemma_longest_is_first(groups, 8, at, len);
    }
    assert(size == len);
    if len > 0 {
        assert(start <= at && at <= start);
    }
    lemma_groups_joined(groups);
    lemma_groups_joined(groups.take(at));
    lemma_groups_joined(groups.skip(at + len));
}

/// Hexadecimal digits are read in either case, and no other character is one.
pub proof fn law_hexadecimal_digits(k: int, c: char)
    requires
        0 <= k < 16,
    ensures
        hex_digit("0123456789abcdef"@[k]) == Some(k as nat),
        hex_digit("0123456789ABCDEF"@[k]) == Some(k as nat),
        !"0123456789abcdef"@.contains(c) && !"0123456789ABCDEF"@.contains(c) ==> hex_digit(
            c,
        ) is None,
{
    reveal_strlit("0123456789abcdef");
    reveal_strlit("0123456789ABCDEF");
    let small = "0123456789abcdef"@;
    let capital = "0123456789ABCDEF"@;
    assert forall|i: int| 0 <= i < 10 implies #[trigger] small[i] as int == 48 + i && capital[i]
        as int == 48 + i by {}
    assert forall|i: int| 10 <= i < 16 implies #[trigger] small[i] as int == 97 + i - 10
        && capital[i] as int == 65 + i - 10 by {}
    if '0' <= c <= '9' {
        assert(small[c as int - 48] == c);
    } else if 'a' <= c <= 'f' {
        assert(small[c as int - 97 + 10] == c);
    } else if 'A' <= c <= 'F' {
        assert(small[c as int - 65 + 10] as int == c as int + 32);
        assert(capital[c as int - 65 + 10] == c);
    }
}

/// A text writes a group: its number in hexadecimal, with or without zeros
/// before it, four digits at most.
pub open spec fn writes_group(s: Seq<char>, group: u16) -> bool {
    let digits = text::numeral(group as nat, 16);
    digits.len() <= s.len() <= 4 && s == text::zeros((s.len() - digits.len()) as nat) + digits
}

/// Zeros before hexadecimal digits change no number.
proof fn lemma_leading_hex_zeros(count: nat, s: Seq<char>)
    ensures
        hex_number(text::zeros(count) + s) == hex_number(s),
    decreases s.len(), count,
{
    let whole = text::zeros(count) + s;
    if s.len() > 0 {
        lemma_leading_hex_zeros(count, s.drop_last());
        assert(whole.drop_last() =~= text::zeros(count) + s.drop_last());
    } else if count > 0 {
        lemma_leading_hex_zeros((count - 1) as nat, s);
        assert(whole.drop_last() =~= text::zeros((count - 1) as nat) + s);
        assert(whole.last() == '0');
    }
}

/// A written group is read, and is made of digits.
proof fn lemma_written_group(s: Seq<char>, group: u16)
    requires
        writes_group(s, group),
    ensures
        group_value(s) == Some(group),
        s.len() > 0,
        all_hex(s),
{
    let digits = text::numeral(group as nat, 16);
    lemma_group(group);
    lemma_hex_number(group as nat);
    lemma_leading_hex_zeros((s.len() - digits.len()) as nat, digits);
}

/// Texts write groups, one each.
pub open spec fn write_groups(parts: Seq<Seq<char>>, groups: Seq<u16>) -> bool {
    &&& parts.len() == groups.len()
    &&& forall|i: int| 0 <= i < parts.len() ==> writes_group(#[trigger] parts[i], groups[i])
}

/// Written groups are read, none at the end is taken for IPv4, and colons
/// between them stand alone.
proof fn lemma_written_groups(parts: Seq<Seq<char>>, groups: Seq<u16>)
    requires
        write_groups(parts, groups),
    ensures
        plain_groups(parts) == Some(groups),
        ending_groups(parts) == Some(groups),
        colon_parts(text::joined(parts, ':')) == parts,
        inner_colons(text::joined(parts, ':')),
        parts.len() > 0 ==> text::joined(parts, ':').len() > 0,
    decreases parts.len(),
{
    let s = text::joined(parts, ':');
    if parts.len() == 0 {
        assert(groups =~= Seq::empty());
        assert(colon_parts(s) =~= parts);
    } else {
        let before = parts.drop_last();
        let last = parts.last();
        assert(writes_group(parts[parts.len() - 1], groups[groups.len() - 1]));
        lemma_written_group(last, groups.last());
        lemma_hex_holds_no(last, ':');
        lemma_hex_holds_no(last, '.');
        text::lemma_pieces_one(last, '.');
        assert forall|i: int| 0 <= i < before.len() implies writes_group(
            #[trigger] before[i],
            groups.drop_last()[i],
        ) by {
            assert(writes_group(parts[i], groups[i]));
        }
        lemma_written_groups(before, groups.drop_last());
        assert(groups.drop_last().push(groups.last()) =~= groups);
        assert(is_hex(last[0]) && is_hex(last[last.len() - 1]));
        if parts.len() == 1 {
            text::lemma_pieces_one(last, ':');
            assert(parts =~= seq![last]);
            assert forall|i: int| 0 <= i < s.len() - 1 implies !#[trigger] colon_pair(s, i) by {
                assert(is_hex(s[i]));
            }
        } else {
            let head = text::joined(before, ':');
            lemma_pieces_push(head, ':', last);
            assert(before.push(last) =~= parts);
            assert forall|i: int| 0 <= i < s.len() - 1 implies !#[trigger] colon_pair(s, i) by {
                if i < head.len() - 1 {
                    assert(!colon_pair(head, i));
                } else if i == head.len() - 1 {
                    assert(s[i] == head.last());
                } else if i == head.len() {
                    assert(s[i + 1] == last[0]);
                } else {
                    assert(s[i] == last[i - head.len() - 1]);
                }
            }
            assert(s[0] == head[0]);
            assert(s.last() == last.last());
        }
    }
}

/// Every way to write an IPv6 address in groups is read: eight groups with
/// colons between them, or fewer around two colons that stand for the zeros
/// that are missing, one at least. Any other number of groups is refused.
pub proof fn law_ipv6_groups_are_read(
    head: Seq<Seq<char>>,
    tail: Seq<Seq<char>>,
    first: Seq<u16>,
    last: Seq<u16>,
)
    requires
        write_groups(head, first),
        write_groups(tail, last),
    ensures
        v6_groups(text::joined(head, ':') + seq![':', ':'] + text::joined(tail, ':')) == (
        if first.len() + last.len() <= 7 {
            Some(
                first + Seq::new((8 - first.len() - last.len()) as nat, |i: int| 0u16) + last,
            )
        } else {
            None
        }),
        v6_groups(text::joined(head, ':')) == (if first.len() == 8 {
            Some(first)
        } else {
            None
        }),
{
    lemma_written_groups(head, first);
    lemma_written_groups(tail, last);
    let a = text::joined(head, ':');
    let b = text::joined(tail, ':');
    let s = a + seq![':', ':'] + b;
    lemma_double_colon(a, b);
    assert(s.take(a.len() as int) =~= a);
    assert(s.skip(a.len() as int + 2) =~= b);
    lemma_no_double_colon(a);
}

/// A port or a scope is read of its digits, with or without zeros before them,
/// up to the greatest that there is; a sign, a space or any other character is
/// not taken.
pub proof fn law_plain_number_reads_back(n: nat, max: nat, count: nat, s: Seq<char>, at: int)
    requires
        0 <= at < s.len(),
        !text::is_digit(s[at]),
    ensures
        digits_upto(text::zeros(count) + text::decimal(n), max) == (if n <= max {
            Some(n)
        } else {
            None
        }),
        digits_upto(s, max) is None,
        digits_upto(Seq::empty(), max) is None,
{
    let digits = text::zeros(count) + text::decimal(n);
    text::law_number_reads_back(n, max, count);
    text::lemma_decimal(n);
    text::lemma_leading_zeros(count, text::decimal(n));
}

} // verus!
