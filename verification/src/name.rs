//! Safe display of a name that came from the network.
//!
//! Its bytes are chosen by a third party and end up in a terminal: unescaped,
//! they could carry ANSI sequences that erase lines or colour the output.

use vstd::prelude::*;

use crate::text;

verus! {

/// What a byte becomes, in the manner of RFC 1035: itself where it is visible
/// ASCII, doubled where it is a backslash, otherwise a backslash and its value
/// on three decimal digits.
pub open spec fn escaped_byte(b: u8) -> Seq<char> {
    if b == 92 {
        seq!['\\', '\\']
    } else if 0x21 <= b <= 0x7e {
        seq![b as char]
    } else {
        seq![
            '\\',
            text::digit(b as int / 100),
            text::digit(b as int / 10 % 10),
            text::digit(b as int % 10),
        ]
    }
}

/// What bytes become, one after the other.
pub open spec fn escaped(bytes: Seq<u8>) -> Seq<char>
    decreases bytes.len(),
{
    if bytes.len() == 0 {
        Seq::empty()
    } else {
        escaped(bytes.drop_last()) + escaped_byte(bytes.last())
    }
}

/// Writes the printable form of one byte.
pub fn escape_byte_into(b: u8, out: &mut String)
    ensures
        final(out)@ == old(out)@ + escaped_byte(b),
{
    if b == 92 {
        out.push('\\');
        out.push('\\');
    } else if 0x21 <= b && b <= 0x7e {
        out.push(b as char);
    } else {
        out.push('\\');
        out.push(text::digit_char(b / 100));
        out.push(text::digit_char(b / 10 % 10));
        out.push(text::digit_char(b % 10));
    }
    assert(out@ =~= old(out)@ + escaped_byte(b));
}

/// A printable version of `bytes`, in the manner of RFC 1035.
pub fn escape(bytes: &[u8]) -> (r: String)
    ensures
        r@ == escaped(bytes@),
{
    let mut out = String::new();
    escape_into(bytes, &mut out);
    assert(out@ =~= escaped(bytes@));
    out
}

/// Like [`escape`], at the end of an existing text.
pub fn escape_into(bytes: &[u8], out: &mut String)
    ensures
        final(out)@ == old(out)@ + escaped(bytes@),
{
    let mut i: usize = 0;
    assert(out@ =~= old(out)@ + escaped(bytes@.take(0)));
    while i < bytes.len()
        invariant
            i <= bytes@.len(),
            out@ == old(out)@ + escaped(bytes@.take(i as int)),
        decreases bytes@.len() - i,
    {
        escape_byte_into(bytes[i], out);
        assert(bytes@.take(i + 1).drop_last() =~= bytes@.take(i as int));
        assert(out@ =~= old(out)@ + escaped(bytes@.take(i + 1)));
        i = i + 1;
    }
    assert(bytes@.take(i as int) =~= bytes@);
}

// ---------------------------------------------------------------------------
// Laws
// ---------------------------------------------------------------------------

/// A character that a terminal only shows: visible ASCII.
pub open spec fn is_visible(c: char) -> bool {
    '!' <= c <= '~'
}

/// Every character of a text is visible ASCII.
pub open spec fn all_visible(s: Seq<char>) -> bool {
    forall|i: int| 0 <= i < s.len() ==> is_visible(#[trigger] s[i])
}

/// Whatever the bytes, a terminal finds nothing to interpret in their escaped
/// form: each character of it is visible ASCII.
pub proof fn law_escaped_is_visible(bytes: Seq<u8>)
    ensures
        all_visible(escaped(bytes)),
    decreases bytes.len(),
{
    if bytes.len() > 0 {
        law_escaped_is_visible(bytes.drop_last());
        assert(all_visible(escaped_byte(bytes.last())));
    }
}

/// The bytes that an escaped text stands for.
pub open spec fn unescaped(s: Seq<char>) -> Seq<u8>
    decreases s.len(),
{
    if s.len() == 0 {
        Seq::empty()
    } else if s[0] != '\\' {
        seq![s[0] as u8] + unescaped(s.skip(1))
    } else if s.len() >= 2 && s[1] == '\\' {
        seq![92u8] + unescaped(s.skip(2))
    } else if s.len() >= 4 {
        seq![((s[1] as int - 48) * 100 + (s[2] as int - 48) * 10 + (s[3] as int - 48)) as u8]
            + unescaped(s.skip(4))
    } else {
        Seq::empty()
    }
}

/// Escaping loses nothing: the bytes can be read back, so two different names
/// are never shown alike.
pub proof fn law_escaped_reads_back(bytes: Seq<u8>)
    ensures
        unescaped(escaped(bytes)) == bytes,
    decreases bytes.len(),
{
    if bytes.len() > 0 {
        let b = bytes[0];
        let rest = bytes.skip(1);
        law_escaped_reads_back(rest);
        lemma_escaped_first(bytes);
        lemma_unescaped_first(b, escaped(rest));
        assert(seq![b] + rest =~= bytes);
    } else {
        assert(unescaped(escaped(bytes)) =~= bytes);
    }
}

/// Bytes that a terminal shows are shown as they are, all but the backslash: a
/// name of letters, digits, dots, hyphens and underscores stays itself.
pub proof fn law_visible_bytes_stay(bytes: Seq<u8>)
    requires
        forall|i: int| 0 <= i < bytes.len() ==> 33 <= #[trigger] bytes[i] <= 126 && bytes[i] != 92,
    ensures
        escaped(bytes) == bytes.map_values(|b: u8| b as char),
    decreases bytes.len(),
{
    if bytes.len() > 0 {
        let before = bytes.drop_last();
        assert forall|i: int| 0 <= i < before.len() implies 33 <= #[trigger] before[i] <= 126
            && before[i] != 92 by {
            assert(before[i] == bytes[i]);
        }
        law_visible_bytes_stay(before);
        assert(bytes[bytes.len() - 1] != 92);
    }
    assert(escaped(bytes) =~= bytes.map_values(|b: u8| b as char));
}

/// The escaped form starts with that of the first byte.
proof fn lemma_escaped_first(bytes: Seq<u8>)
    requires
        bytes.len() > 0,
    ensures
        escaped(bytes) == escaped_byte(bytes[0]) + escaped(bytes.skip(1)),
    decreases bytes.len(),
{
    if bytes.len() == 1 {
        assert(bytes.drop_last() =~= Seq::<u8>::empty());
        assert(bytes.skip(1) =~= Seq::<u8>::empty());
        assert(escaped(bytes.drop_last()) =~= Seq::<char>::empty());
        assert(escaped(bytes) =~= escaped_byte(bytes[0]) + escaped(bytes.skip(1)));
    } else {
        lemma_escaped_first(bytes.drop_last());
        assert(bytes.drop_last().skip(1) =~= bytes.skip(1).drop_last());
        assert(escaped(bytes) =~= escaped_byte(bytes[0]) + escaped(bytes.skip(1)));
    }
}

/// The first byte is read back first.
proof fn lemma_unescaped_first(b: u8, rest: Seq<char>)
    ensures
        unescaped(escaped_byte(b) + rest) == seq![b] + unescaped(rest),
{
    let s = escaped_byte(b) + rest;
    if b == 92 {
        assert(s.skip(2) =~= rest);
    } else if 0x21 <= b <= 0x7e {
        assert(s.skip(1) =~= rest);
    } else {
        assert(s.skip(4) =~= rest);
        assert(s[1] != '\\');
    }
}

} // verus!
