//! Writing JSON, as far as a report needs it.
//!
//! Everything goes through [`Object`], so that everything is escaped: no value
//! from the network reaches the output as it is.

use vstd::prelude::*;

use crate::text;

verus! {

/// What a character becomes in a string, according to RFC 8259.
pub open spec fn escaped_char(c: char) -> Seq<char> {
    if c == '"' {
        seq!['\\', '"']
    } else if c == '\\' {
        seq!['\\', '\\']
    } else if c == '\n' {
        seq!['\\', 'n']
    } else if c == '\r' {
        seq!['\\', 'r']
    } else if c == '\t' {
        seq!['\\', 't']
    } else if (c as u32) < 0x20 {
        seq!['\\', 'u', '0', '0', text::digit(c as int / 16), text::digit(c as int % 16)]
    } else {
        seq![c]
    }
}

/// What a text becomes between its quotes.
pub open spec fn escaped_text(s: Seq<char>) -> Seq<char>
    decreases s.len(),
{
    if s.len() == 0 {
        Seq::empty()
    } else {
        escaped_text(s.drop_last()) + escaped_char(s.last())
    }
}

/// A text as a JSON string.
pub open spec fn quoted(s: Seq<char>) -> Seq<char> {
    seq!['"'] + escaped_text(s) + seq!['"']
}

/// Some JSON strings with commas between them.
pub open spec fn comma_quoted(texts: Seq<Seq<char>>) -> Seq<char>
    decreases texts.len(),
{
    if texts.len() == 0 {
        Seq::empty()
    } else if texts.len() == 1 {
        quoted(texts[0])
    } else {
        comma_quoted(texts.drop_last()).push(',') + quoted(texts.last())
    }
}

/// Some texts as a JSON array of strings.
pub open spec fn quoted_list(texts: Seq<Seq<char>>) -> Seq<char> {
    seq!['['] + comma_quoted(texts) + seq![']']
}

/// An object being written, with the key of one more member.
pub open spec fn with_key(object: Seq<char>, key: Seq<char>) -> Seq<char> {
    (if object.len() > 1 {
        object.push(',')
    } else {
        object
    }) + quoted(key) + seq![':']
}

/// An object being written, with one more member.
pub open spec fn with_member(object: Seq<char>, key: Seq<char>, value: Seq<char>) -> Seq<char> {
    with_key(object, key) + value
}

/// A string, or `null`.
pub open spec fn quoted_or_null(value: Option<Seq<char>>) -> Seq<char> {
    match value {
        Some(s) => quoted(s),
        None => "null"@,
    }
}

/// A number, or `null`.
pub open spec fn number_or_null(value: Option<u64>) -> Seq<char> {
    match value {
        Some(n) => text::decimal(n as nat),
        None => "null"@,
    }
}

/// `true` or `false`.
pub open spec fn boolean_text(value: bool) -> Seq<char> {
    if value {
        "true"@
    } else {
        "false"@
    }
}

/// A JSON object being written.
#[derive(Debug)]
pub struct Object {
    buf: String,
    empty: bool,
}

impl View for Object {
    type V = Seq<char>;

    closed spec fn view(&self) -> Seq<char> {
        self.buf@
    }
}

/// Writes a character of a string.
fn escape_char_into(c: char, out: &mut String)
    ensures
        final(out)@ == old(out)@ + escaped_char(c),
{
    if c == '"' {
        out.push('\\');
        out.push('"');
    } else if c == '\\' {
        out.push('\\');
        out.push('\\');
    } else if c == '\n' {
        out.push('\\');
        out.push('n');
    } else if c == '\r' {
        out.push('\\');
        out.push('r');
    } else if c == '\t' {
        out.push('\\');
        out.push('t');
    } else if (c as u32) < 0x20 {
        // The other control characters have no short form.
        let code: u8 = c as u8;
        out.push('\\');
        out.push('u');
        out.push('0');
        out.push('0');
        out.push(text::digit_char(code / 16));
        out.push(text::digit_char(code % 16));
    } else {
        out.push(c);
    }
    assert(out@ =~= old(out)@ + escaped_char(c));
}

/// Writes a text as a JSON string.
pub fn escape_into(value: &str, out: &mut String)
    ensures
        final(out)@ == old(out)@ + quoted(value@),
{
    let chars = text::chars_of(value);
    out.push('"');
    let ghost start = out@;
    let mut i: usize = 0;
    assert(out@ =~= start + escaped_text(chars@.take(0)));
    while i < chars.len()
        invariant
            i <= chars@.len(),
            out@ == start + escaped_text(chars@.take(i as int)),
        decreases chars@.len() - i,
    {
        escape_char_into(chars[i], out);
        assert(chars@.take(i + 1).drop_last() =~= chars@.take(i as int));
        assert(out@ =~= start + escaped_text(chars@.take(i + 1)));
        i = i + 1;
    }
    assert(chars@.take(i as int) =~= chars@);
    out.push('"');
    assert(out@ =~= old(out)@ + quoted(value@));
}

impl Object {
    /// The object has been opened, and is known to have members or none.
    pub closed spec fn wf(&self) -> bool {
        self.buf@.len() >= 1 && self.empty == (self.buf@.len() == 1)
    }

    /// An object without members.
    pub fn new() -> (r: Self)
        ensures
            r.wf(),
            r@ == seq!['{'],
    {
        let mut buf = String::new();
        buf.push('{');
        assert(buf@ =~= seq!['{']);
        Object { buf, empty: true }
    }

    /// Writes a key, with a comma before it where there is a member.
    fn key(&mut self, key: &str)
        requires
            old(self).wf(),
        ensures
            final(self).wf(),
            final(self)@ == with_key(old(self)@, key@),
    {
        if !self.empty {
            self.buf.push(',');
        }
        escape_into(key, &mut self.buf);
        self.buf.push(':');
        self.empty = false;
        assert(self.buf@ =~= with_key(old(self)@, key@));
    }

    /// Writes what a value became.
    fn value(&mut self, value: &str)
        requires
            old(self).wf(),
            old(self)@.len() > 1,
        ensures
            final(self).wf(),
            final(self)@ == old(self)@ + value@,
    {
        self.buf.append(value);
        assert(self.buf@ =~= old(self)@ + value@);
    }

    /// A string, escaped.
    pub fn string(&mut self, key: &str, value: &str) -> (r: &mut Self)
        requires
            old(self).wf(),
        ensures
            r.wf(),
            r@ == with_member(old(self)@, key@, quoted(value@)),
            *final(self) == *final(r),
    {
        self.key(key);
        escape_into(value, &mut self.buf);
        self
    }

    /// A string, or `null` where there is none.
    pub fn maybe_string(&mut self, key: &str, value: Option<&str>) -> (r: &mut Self)
        requires
            old(self).wf(),
        ensures
            r.wf(),
            r@ == with_member(
                old(self)@,
                key@,
                quoted_or_null(
                    match value {
                        Some(s) => Some(s@),
                        None => None,
                    },
                ),
            ),
            *final(self) == *final(r),
    {
        match value {
            Some(value) => self.string(key, value),
            None => self.null(key),
        }
    }

    /// A number.
    pub fn number(&mut self, key: &str, value: u64) -> (r: &mut Self)
        requires
            old(self).wf(),
        ensures
            r.wf(),
            r@ == with_member(old(self)@, key@, text::decimal(value as nat)),
            *final(self) == *final(r),
    {
        self.key(key);
        self.value(text::decimal_text(value).as_str());
        self
    }

    /// A number, or `null` where there is none.
    pub fn maybe_number(&mut self, key: &str, value: Option<u64>) -> (r: &mut Self)
        requires
            old(self).wf(),
        ensures
            r.wf(),
            r@ == with_member(old(self)@, key@, number_or_null(value)),
            *final(self) == *final(r),
    {
        match value {
            Some(value) => self.number(key, value),
            None => self.null(key),
        }
    }

    /// A boolean.
    pub fn boolean(&mut self, key: &str, value: bool) -> (r: &mut Self)
        requires
            old(self).wf(),
        ensures
            r.wf(),
            r@ == with_member(old(self)@, key@, boolean_text(value)),
            *final(self) == *final(r),
    {
        self.key(key);
        self.value(
            if value {
                "true"
            } else {
                "false"
            },
        );
        self
    }

    /// An array of strings.
    pub fn strings(&mut self, key: &str, values: &[String]) -> (r: &mut Self)
        requires
            old(self).wf(),
        ensures
            r.wf(),
            r@ == with_member(old(self)@, key@, quoted_list(text::string_views(values@))),
            *final(self) == *final(r),
    {
        self.key(key);
        push_list(values, &mut self.buf);
        self
    }

    /// An object within this one.
    pub fn object(&mut self, key: &str, value: Object) -> (r: &mut Self)
        requires
            old(self).wf(),
        ensures
            r.wf(),
            r@ == with_member(old(self)@, key@, value@.push('}')),
            *final(self) == *final(r),
    {
        self.key(key);
        self.value(value.finish().as_str());
        self
    }

    /// Nothing.
    pub fn null(&mut self, key: &str) -> (r: &mut Self)
        requires
            old(self).wf(),
        ensures
            r.wf(),
            r@ == with_member(old(self)@, key@, "null"@),
            *final(self) == *final(r),
    {
        self.key(key);
        self.value("null");
        self
    }

    /// Closes the object, and gives its text.
    pub fn finish(self) -> (r: String)
        ensures
            r@ == self@.push('}'),
    {
        let mut buf = self.buf;
        buf.push('}');
        buf
    }
}

impl Default for Object {
    fn default() -> (r: Self)
        ensures
            r.wf(),
            r@ == seq!['{'],
    {
        Object::new()
    }
}

/// Writes an array of strings.
fn push_list(values: &[String], out: &mut String)
    ensures
        final(out)@ == old(out)@ + quoted_list(text::string_views(values@)),
{
    let ghost all = text::string_views(values@);
    out.push('[');
    let ghost start = out@;
    let mut i: usize = 0;
    assert(out@ =~= start + comma_quoted(all.take(0)));
    while i < values.len()
        invariant
            i <= values@.len(),
            all == text::string_views(values@),
            out@ == start + comma_quoted(all.take(i as int)),
        decreases values@.len() - i,
    {
        if i > 0 {
            out.push(',');
        }
        escape_into(values[i].as_str(), out);
        assert(all.take(i + 1).drop_last() =~= all.take(i as int));
        assert(all.take(i + 1).last() == values@[i as int]@);
        assert(out@ =~= start + comma_quoted(all.take(i + 1)));
        i = i + 1;
    }
    assert(all.take(i as int) =~= all);
    out.push(']');
    assert(out@ =~= old(out)@ + quoted_list(text::string_views(values@)));
}

// ---------------------------------------------------------------------------
// Laws
// ---------------------------------------------------------------------------

/// The number that a hexadecimal digit writes.
pub open spec fn hex_value(c: char) -> Option<int> {
    if '0' <= c <= '9' {
        Some(c as int - '0' as int)
    } else if 'a' <= c <= 'f' {
        Some(c as int - 'a' as int + 10)
    } else if 'A' <= c <= 'F' {
        Some(c as int - 'A' as int + 10)
    } else {
        None
    }
}

/// The character that four hexadecimal digits write. Halves of a pair are not
/// read.
pub open spec fn hex_char(s: Seq<char>) -> Option<char> {
    if s.len() != 4 {
        None
    } else {
        match (hex_value(s[0]), hex_value(s[1]), hex_value(s[2]), hex_value(s[3])) {
            (Some(a), Some(b), Some(c), Some(d)) => {
                let code = a * 4096 + b * 256 + c * 16 + d;
                if 0xd800 <= code < 0xe000 {
                    None
                } else {
                    Some(code as char)
                }
            },
            _ => None,
        }
    }
}

/// The character that stands behind a backslash, `u` aside.
pub open spec fn short_escape(c: char) -> Option<char> {
    if c == '"' || c == '\\' || c == '/' {
        Some(c)
    } else if c == 'b' {
        Some('\u{8}')
    } else if c == 'f' {
        Some('\u{c}')
    } else if c == 'n' {
        Some('\n')
    } else if c == 'r' {
        Some('\r')
    } else if c == 't' {
        Some('\t')
    } else {
        None
    }
}

/// The first character that an escaped text stands for, and how much of the
/// text it takes. `None` where there is none: at the quote, and where the text
/// is not as RFC 8259 has it.
pub open spec fn first_char(s: Seq<char>) -> Option<(char, int)> {
    if s.len() == 0 || s[0] == '"' || !(s[0] >= ' ') {
        None
    } else if s[0] != '\\' {
        Some((s[0], 1))
    } else if s.len() < 2 {
        None
    } else if s[1] != 'u' {
        match short_escape(s[1]) {
            Some(c) => Some((c, 2)),
            None => None,
        }
    } else if s.len() < 6 {
        None
    } else {
        match hex_char(s.subrange(2, 6)) {
            Some(c) => Some((c, 6)),
            None => None,
        }
    }
}

/// What a reader takes a JSON string for, from behind its first quote: the
/// text up to the quote that ends it, and what follows that. `None` where it is
/// no string, or has more than `limit` characters.
pub open spec fn read_text(s: Seq<char>, limit: nat) -> Option<(Seq<char>, Seq<char>)>
    decreases limit,
{
    if s.len() > 0 && s[0] == '"' {
        Some((Seq::empty(), s.skip(1)))
    } else {
        match first_char(s) {
            None => None,
            Some((c, len)) => if limit == 0 {
                None
            } else {
                match read_text(s.skip(len), (limit - 1) as nat) {
                    Some((more, rest)) => Some((seq![c] + more, rest)),
                    None => None,
                }
            },
        }
    }
}

/// A string reads back as the text it was made of, and ends where it should:
/// whatever the text holds, it cannot break out of its quotes.
pub proof fn law_string_reads_back(s: Seq<char>, behind: Seq<char>, limit: nat)
    requires
        s.len() <= limit,
    ensures
        (quoted(s) + behind)[0] == '"',
        read_text((quoted(s) + behind).skip(1), limit) == Some((s, behind)),
{
    lemma_read_text(s, behind, limit);
    assert((quoted(s) + behind).skip(1) =~= escaped_text(s) + seq!['"'] + behind);
}

/// The same, from behind the first quote.
proof fn lemma_read_text(s: Seq<char>, behind: Seq<char>, limit: nat)
    requires
        s.len() <= limit,
    ensures
        read_text(escaped_text(s) + seq!['"'] + behind, limit) == Some((s, behind)),
    decreases s.len(),
{
    let t = escaped_text(s) + seq!['"'] + behind;
    if s.len() == 0 {
        assert(t =~= seq!['"'] + behind);
        assert(t.skip(1) =~= behind);
        assert(s =~= Seq::empty());
    } else {
        let rest = s.skip(1);
        lemma_escaped_first(s);
        lemma_read_text(rest, behind, (limit - 1) as nat);
        let tail = escaped_text(rest) + seq!['"'] + behind;
        assert(t =~= escaped_char(s[0]) + tail);
        lemma_first_char(s[0], tail);
        assert((escaped_char(s[0]) + tail).skip(escaped_char(s[0]).len() as int) =~= tail);
        assert(seq![s[0]] + rest =~= s);
    }
}

/// An escaped text starts with its first character escaped.
proof fn lemma_escaped_first(s: Seq<char>)
    requires
        s.len() > 0,
    ensures
        escaped_text(s) == escaped_char(s[0]) + escaped_text(s.skip(1)),
    decreases s.len(),
{
    if s.len() == 1 {
        assert(escaped_text(s.drop_last()) =~= Seq::empty());
        assert(escaped_text(s.skip(1)) =~= Seq::empty());
        assert(escaped_text(s) =~= escaped_char(s[0]) + escaped_text(s.skip(1)));
    } else {
        lemma_escaped_first(s.drop_last());
        assert(s.drop_last().skip(1) =~= s.skip(1).drop_last());
        assert(escaped_text(s) =~= escaped_char(s[0]) + escaped_text(s.skip(1)));
    }
}

/// The first character reads back, and does not look like the end.
proof fn lemma_first_char(c: char, tail: Seq<char>)
    ensures
        first_char(escaped_char(c) + tail) == Some((c, escaped_char(c).len() as int)),
        (escaped_char(c) + tail)[0] != '"',
{
    let t = escaped_char(c) + tail;
    assert(t[0] == escaped_char(c)[0]);
    if escaped_char(c).len() > 1 {
        assert(t[1] == escaped_char(c)[1]);
    }
    if escaped_char(c).len() == 6 {
        let code = c as int;
        let digits = seq!['0', '0', text::digit(code / 16), text::digit(code % 16)];
        assert(t.subrange(2, 6) =~= digits);
        lemma_hex_char(c);
    }
}

/// The digits of a control character write it.
proof fn lemma_hex_char(c: char)
    requires
        (c as u32) < 0x20,
    ensures
        hex_char(seq!['0', '0', text::digit(c as int / 16), text::digit(c as int % 16)]) == Some(c),
{
    let high = c as int / 16;
    let low = c as int % 16;
    assert(0 <= high < 2 && 0 <= low < 16);
    assert(high * 16 + low == c as int);
    assert(hex_value(text::digit(high)) == Some(high));
    assert(hex_value(text::digit(low)) == Some(low));
}

/// A text gets no shorter by escaping.
proof fn lemma_escaped_length(s: Seq<char>)
    ensures
        s.len() <= escaped_text(s).len(),
    decreases s.len(),
{
    if s.len() > 0 {
        lemma_escaped_length(s.drop_last());
    }
}

/// A JSON value, of those that are written here: numbers are whole and not
/// negative.
pub enum Value {
    /// `null`.
    Null,
    /// `true` or `false`.
    Boolean(bool),
    /// A number.
    Number(nat),
    /// A string.
    Text(Seq<char>),
    /// An array.
    List(Seq<Value>),
    /// An object: its members, in their order.
    Object(Seq<(Seq<char>, Value)>),
}

/// The text of a value.
pub open spec fn value_text(value: Value) -> Seq<char>
    decreases value,
{
    match value {
        Value::Null => "null"@,
        Value::Boolean(b) => boolean_text(b),
        Value::Number(n) => text::decimal(n),
        Value::Text(s) => quoted(s),
        Value::List(items) => seq!['['] + items_text(items) + seq![']'],
        Value::Object(members) => seq!['{'] + members_text(members) + seq!['}'],
    }
}

/// Some values with commas between them.
pub open spec fn items_text(items: Seq<Value>) -> Seq<char>
    decreases items,
{
    if items.len() == 0 {
        Seq::empty()
    } else if items.len() == 1 {
        value_text(items[0])
    } else {
        value_text(items[0]) + seq![','] + items_text(items.skip(1))
    }
}

/// Some members with commas between them.
pub open spec fn members_text(members: Seq<(Seq<char>, Value)>) -> Seq<char>
    decreases members,
{
    if members.len() == 0 {
        Seq::empty()
    } else {
        let first = quoted(members[0].0) + seq![':'] + value_text(members[0].1);
        if members.len() == 1 {
            first
        } else {
            first + seq![','] + members_text(members.skip(1))
        }
    }
}

/// An object being written, with these members.
pub open spec fn opened(members: Seq<(Seq<char>, Value)>) -> Seq<char> {
    seq!['{'] + members_text(members)
}

/// One more member behind some others.
proof fn lemma_members_push(members: Seq<(Seq<char>, Value)>, key: Seq<char>, value: Value)
    ensures
        members_text(members.push((key, value))) == members_text(members) + (if members.len() > 0 {
            seq![',']
        } else {
            Seq::empty()
        }) + (quoted(key) + seq![':'] + value_text(value)),
        members.len() > 0 ==> members_text(members).len() > 0,
    decreases members.len(),
{
    let more = members.push((key, value));
    let last = quoted(key) + seq![':'] + value_text(value);
    if members.len() == 0 {
        assert(more[0] == (key, value));
        assert(members_text(more) =~= members_text(members) + Seq::empty() + last);
    } else {
        let rest = members.skip(1);
        let first = quoted(members[0].0) + seq![':'] + value_text(members[0].1);
        assert(more.skip(1) =~= rest.push((key, value)));
        assert(more[0] == members[0]);
        lemma_members_push(rest, key, value);
        assert(members_text(more) == first + seq![','] + members_text(rest.push((key, value))));
        if members.len() == 1 {
            assert(members_text(rest) =~= Seq::empty());
        }
        assert(members_text(more) =~= members_text(members) + seq![','] + last);
    }
}

/// One more value behind some others.
proof fn lemma_items_push(items: Seq<Value>, value: Value)
    ensures
        items_text(items.push(value)) == items_text(items) + (if items.len() > 0 {
            seq![',']
        } else {
            Seq::empty()
        }) + value_text(value),
    decreases items.len(),
{
    let more = items.push(value);
    if items.len() == 0 {
        assert(more[0] == value);
        assert(items_text(more) =~= items_text(items) + Seq::empty() + value_text(value));
    } else {
        let rest = items.skip(1);
        assert(more.skip(1) =~= rest.push(value));
        assert(more[0] == items[0]);
        lemma_items_push(rest, value);
        assert(items_text(more) == value_text(items[0]) + seq![','] + items_text(rest.push(value)));
        if items.len() == 1 {
            assert(items_text(rest) =~= Seq::empty());
        }
        assert(items_text(more) =~= items_text(items) + seq![','] + value_text(value));
    }
}

/// Texts as an array of strings.
pub open spec fn texts_value(texts: Seq<Seq<char>>) -> Value {
    Value::List(texts.map_values(|s: Seq<char>| Value::Text(s)))
}

/// An optional text: a string, or `null`.
pub open spec fn maybe_text(value: Option<Seq<char>>) -> Value {
    match value {
        Some(s) => Value::Text(s),
        None => Value::Null,
    }
}

/// An optional number: the number, or `null`.
pub open spec fn maybe_count(value: Option<u64>) -> Value {
    match value {
        Some(n) => Value::Number(n as nat),
        None => Value::Null,
    }
}

/// What the methods of [`Object`] write is the text of the value that they are
/// given.
pub proof fn law_values_are_written(
    s: Seq<char>,
    n: nat,
    b: bool,
    maybe_s: Option<Seq<char>>,
    maybe_n: Option<u64>,
    texts: Seq<Seq<char>>,
    members: Seq<(Seq<char>, Value)>,
)
    ensures
        quoted(s) == value_text(Value::Text(s)),
        text::decimal(n) == value_text(Value::Number(n)),
        boolean_text(b) == value_text(Value::Boolean(b)),
        "null"@ == value_text(Value::Null),
        quoted_or_null(maybe_s) == value_text(maybe_text(maybe_s)),
        number_or_null(maybe_n) == value_text(maybe_count(maybe_n)),
        quoted_list(texts) == value_text(texts_value(texts)),
        opened(members).push('}') == value_text(Value::Object(members)),
{
    lemma_list_text(texts);
    assert(opened(members).push('}') =~= value_text(Value::Object(members)));
}

/// An array of strings is the text of that array.
proof fn lemma_list_text(texts: Seq<Seq<char>>)
    ensures
        comma_quoted(texts) == items_text(texts.map_values(|s: Seq<char>| Value::Text(s))),
        quoted_list(texts) == value_text(texts_value(texts)),
    decreases texts.len(),
{
    let values = texts.map_values(|s: Seq<char>| Value::Text(s));
    if texts.len() > 0 {
        let before = texts.drop_last();
        let earlier = before.map_values(|s: Seq<char>| Value::Text(s));
        lemma_list_text(before);
        lemma_items_push(earlier, Value::Text(texts.last()));
        assert(values =~= earlier.push(Value::Text(texts.last())));
        if texts.len() == 1 {
            assert(earlier.len() == 0);
            assert(items_text(earlier) =~= Seq::empty());
            assert(texts[0] == texts.last());
        }
        assert(comma_quoted(texts) =~= items_text(values));
    }
}

/// An object is its members with commas between them, in the order in which
/// they were written: it starts without any, and each is put behind the
/// others.
pub proof fn law_object_is_its_members(
    members: Seq<(Seq<char>, Value)>,
    key: Seq<char>,
    value: Value,
)
    ensures
        opened(Seq::empty()) == seq!['{'],
        with_member(opened(members), key, value_text(value)) == opened(members.push((key, value))),
{
    assert(opened(Seq::empty()) =~= seq!['{']);
    lemma_members_push(members, key, value);
    if members.len() == 0 {
        assert(members_text(members) =~= Seq::empty());
    }
    assert(with_member(opened(members), key, value_text(value)) =~= opened(
        members.push((key, value)),
    ));
}

/// Where the digits at the start of a text end.
pub open spec fn digits_end(s: Seq<char>) -> int
    decreases s.len(),
{
    if s.len() > 0 && text::is_digit(s[0]) {
        1 + digits_end(s.skip(1))
    } else {
        0
    }
}

/// A text starts with another.
pub open spec fn starts_with(s: Seq<char>, start: Seq<char>) -> bool {
    s.len() >= start.len() && s.take(start.len() as int) == start
}

/// The number at the start of a text, and what follows it: digits, the first
/// of several not zero.
pub open spec fn read_number(s: Seq<char>) -> Option<(Value, Seq<char>)> {
    let end = digits_end(s);
    if end == 0 || (end > 1 && s[0] == '0') {
        None
    } else {
        Some((Value::Number(text::digits_value(s.take(end))), s.skip(end)))
    }
}

/// What a reader takes the start of a text for: a value of RFC 8259, and what
/// follows it. `None` where it is none that is written here, or takes more
/// than `limit` steps.
pub open spec fn read_value(s: Seq<char>, limit: nat) -> Option<(Value, Seq<char>)>
    decreases limit,
{
    if limit == 0 || s.len() == 0 {
        None
    } else if s[0] == '"' {
        match read_text(s.skip(1), s.len()) {
            Some((t, rest)) => Some((Value::Text(t), rest)),
            None => None,
        }
    } else if s[0] == '[' {
        if s.len() > 1 && s[1] == ']' {
            Some((Value::List(Seq::empty()), s.skip(2)))
        } else {
            match read_items(s.skip(1), (limit - 1) as nat) {
                Some((items, rest)) => Some((Value::List(items), rest)),
                None => None,
            }
        }
    } else if s[0] == '{' {
        if s.len() > 1 && s[1] == '}' {
            Some((Value::Object(Seq::empty()), s.skip(2)))
        } else {
            match read_members(s.skip(1), (limit - 1) as nat) {
                Some((members, rest)) => Some((Value::Object(members), rest)),
                None => None,
            }
        }
    } else if starts_with(s, "null"@) {
        Some((Value::Null, s.skip(4)))
    } else if starts_with(s, "true"@) {
        Some((Value::Boolean(true), s.skip(4)))
    } else if starts_with(s, "false"@) {
        Some((Value::Boolean(false), s.skip(5)))
    } else {
        read_number(s)
    }
}

/// The values of an array that is not empty, from its first one on, and what
/// follows its bracket.
pub open spec fn read_items(s: Seq<char>, limit: nat) -> Option<(Seq<Value>, Seq<char>)>
    decreases limit,
{
    if limit == 0 {
        None
    } else {
        match read_value(s, (limit - 1) as nat) {
            None => None,
            Some((value, rest)) => if rest.len() > 0 && rest[0] == ']' {
                Some((seq![value], rest.skip(1)))
            } else if rest.len() > 0 && rest[0] == ',' {
                match read_items(rest.skip(1), (limit - 1) as nat) {
                    Some((more, end)) => Some((seq![value] + more, end)),
                    None => None,
                }
            } else {
                None
            },
        }
    }
}

/// The members of an object that is not empty, from its first one on, and what
/// follows its brace.
pub open spec fn read_members(s: Seq<char>, limit: nat) -> Option<
    (Seq<(Seq<char>, Value)>, Seq<char>),
>
    decreases limit,
{
    if limit == 0 || s.len() == 0 || s[0] != '"' {
        None
    } else {
        match read_text(s.skip(1), s.len()) {
            None => None,
            Some((key, after)) => if after.len() == 0 || after[0] != ':' {
                None
            } else {
                match read_value(after.skip(1), (limit - 1) as nat) {
                    None => None,
                    Some((value, rest)) => if rest.len() > 0 && rest[0] == '}' {
                        Some((seq![(key, value)], rest.skip(1)))
                    } else if rest.len() > 0 && rest[0] == ',' {
                        match read_members(rest.skip(1), (limit - 1) as nat) {
                            Some((more, end)) => Some((seq![(key, value)] + more, end)),
                            None => None,
                        }
                    } else {
                        None
                    },
                }
            },
        }
    }
}

/// The members that a whole text is read as: `None` where it is not one JSON
/// object and nothing else.
pub open spec fn read_object(s: Seq<char>) -> Option<Seq<(Seq<char>, Value)>> {
    match read_value(s, s.len()) {
        Some((Value::Object(members), rest)) => if rest.len() == 0 {
            Some(members)
        } else {
            None
        },
        _ => None,
    }
}

/// Digits end where they end.
proof fn lemma_digits_end(digits: Seq<char>, behind: Seq<char>)
    requires
        text::all_digits(digits),
        behind.len() > 0 ==> !text::is_digit(behind[0]),
    ensures
        digits_end(digits + behind) == digits.len(),
    decreases digits.len(),
{
    let s = digits + behind;
    if digits.len() > 0 {
        let rest = digits.skip(1);
        assert(text::is_digit(digits[0]));
        assert forall|i: int| 0 <= i < rest.len() implies text::is_digit(#[trigger] rest[i]) by {
            assert(rest[i] == digits[i + 1]);
            assert(text::is_digit(digits[i + 1]));
        }
        lemma_digits_end(rest, behind);
        assert(s.skip(1) =~= rest + behind);
    } else {
        assert(s =~= behind);
    }
}

/// A number reads back.
proof fn lemma_number_reads_back(n: nat, behind: Seq<char>)
    requires
        behind.len() > 0 ==> !text::is_digit(behind[0]),
    ensures
        read_number(text::decimal(n) + behind) == Some((Value::Number(n), behind)),
        text::is_digit((text::decimal(n) + behind)[0]),
{
    let digits = text::decimal(n);
    let s = digits + behind;
    text::lemma_decimal(n);
    lemma_digits_end(digits, behind);
    assert(s[0] == digits[0]);
    assert(text::is_digit(digits[0]));
    assert(s.take(digits.len() as int) =~= digits);
    assert(s.skip(digits.len() as int) =~= behind);
}

/// `null`, `true`, `false` and numbers read back.
proof fn lemma_plain_value_reads_back(value: Value, behind: Seq<char>, limit: nat)
    requires
        value is Null || value is Boolean || value is Number,
        limit > 0,
        behind.len() > 0 ==> !text::is_digit(behind[0]),
    ensures
        read_value(value_text(value) + behind, limit) == Some((value, behind)),
{
    reveal_strlit("null");
    reveal_strlit("true");
    reveal_strlit("false");
    let s = value_text(value) + behind;
    match value {
        Value::Null => {
            assert(s.take(4) =~= "null"@);
            assert(s.skip(4) =~= behind);
        },
        Value::Boolean(b) => {
            assert(s[0] == boolean_text(b)[0]);
            if b {
                assert(s.take(4) =~= "true"@);
                assert(s.take(4)[0] != "null"@[0]);
                assert(s.skip(4) =~= behind);
            } else {
                assert(s.take(5) =~= "false"@);
                assert(s.take(4)[0] != "null"@[0]);
                assert(s.take(4)[0] != "true"@[0]);
                assert(s.skip(5) =~= behind);
            }
        },
        Value::Number(n) => {
            lemma_number_reads_back(n, behind);
            assert(s.len() >= 4 ==> s.take(4)[0] == s[0]);
            assert(s.len() >= 5 ==> s.take(5)[0] == s[0]);
            assert("null"@[0] == 'n' && "true"@[0] == 't' && "false"@[0] == 'f');
        },
        _ => {},
    }
}

/// A string reads back as a value.
proof fn lemma_text_reads_back(t: Seq<char>, behind: Seq<char>, limit: nat)
    requires
        limit > 0,
    ensures
        read_value(quoted(t) + behind, limit) == Some((Value::Text(t), behind)),
{
    let s = quoted(t) + behind;
    lemma_escaped_length(t);
    law_string_reads_back(t, behind, s.len());
}

/// What a value starts with: never what ends an array or an object.
proof fn lemma_value_start(value: Value)
    ensures
        value_text(value).len() > 0,
        value_text(value)[0] != ']',
        value_text(value)[0] != '}',
{
    reveal_strlit("null");
    reveal_strlit("true");
    reveal_strlit("false");
    match value {
        Value::Number(n) => {
            text::lemma_decimal(n);
            assert(text::is_digit(text::decimal(n)[0]));
        },
        _ => {},
    }
}

/// Any value reads back, and what follows it is left.
#[verifier::spinoff_prover]
proof fn lemma_value_reads_back(value: Value, behind: Seq<char>, limit: nat)
    requires
        limit >= value_text(value).len(),
        behind.len() > 0 ==> !text::is_digit(behind[0]),
    ensures
        read_value(value_text(value) + behind, limit) == Some((value, behind)),
    decreases value, 0int,
{
    let s = value_text(value) + behind;
    lemma_value_start(value);
    match value {
        Value::Text(t) => lemma_text_reads_back(t, behind, limit),
        Value::List(items) => {
            assert(s[0] == '[');
            if items.len() == 0 {
                assert(s[1] == ']');
                assert(s.skip(2) =~= behind);
                assert(items =~= Seq::empty());
            } else {
                assert(s.skip(1) =~= items_text(items) + seq![']'] + behind);
                lemma_items_read_back(items, behind, (limit - 1) as nat);
                lemma_items_start(items);
                assert(s[1] == items_text(items)[0]);
            }
        },
        Value::Object(members) => {
            assert(s[0] == '{');
            if members.len() == 0 {
                assert(s[1] == '}');
                assert(s.skip(2) =~= behind);
                assert(members =~= Seq::empty());
            } else {
                assert(s.skip(1) =~= members_text(members) + seq!['}'] + behind);
                lemma_members_read_back(members, behind, (limit - 1) as nat);
                lemma_members_start(members);
                assert(s[1] == members_text(members)[0]);
            }
        },
        _ => lemma_plain_value_reads_back(value, behind, limit),
    }
}

/// Values of an array start as the first of them does.
proof fn lemma_items_start(items: Seq<Value>)
    requires
        items.len() > 0,
    ensures
        items_text(items).len() > 0,
        items_text(items)[0] != ']',
{
    lemma_value_start(items[0]);
}

/// Members of an object start with a quote.
proof fn lemma_members_start(members: Seq<(Seq<char>, Value)>)
    requires
        members.len() > 0,
    ensures
        members_text(members).len() > 0,
        members_text(members)[0] == '"',
{
}

/// The values of an array read back.
#[verifier::spinoff_prover]
proof fn lemma_items_read_back(items: Seq<Value>, behind: Seq<char>, limit: nat)
    requires
        items.len() > 0,
        limit > items_text(items).len(),
    ensures
        read_items(items_text(items) + seq![']'] + behind, limit) == Some((items, behind)),
    decreases items, 1int,
{
    let s = items_text(items) + seq![']'] + behind;
    let first = value_text(items[0]);
    lemma_value_start(items[0]);
    if items.len() == 1 {
        let after = seq![']'] + behind;
        assert(s =~= first + after);
        lemma_value_reads_back(items[0], after, (limit - 1) as nat);
        assert(after.skip(1) =~= behind);
        assert(seq![items[0]] =~= items);
    } else {
        let rest = items.skip(1);
        let more = items_text(rest) + seq![']'] + behind;
        let after = seq![','] + more;
        assert(s =~= first + after);
        lemma_value_reads_back(items[0], after, (limit - 1) as nat);
        assert(after.skip(1) =~= more);
        lemma_items_read_back(rest, behind, (limit - 1) as nat);
        assert(seq![items[0]] + rest =~= items);
    }
}

/// What the first member of an object is read as, and what is read behind it.
proof fn lemma_first_member(
    key: Seq<char>,
    from_value: Seq<char>,
    value: Value,
    after: Seq<char>,
    limit: nat,
)
    requires
        limit > 0,
        read_value(from_value, (limit - 1) as nat) == Some((value, after)),
        after.len() > 0,
    ensures
        after[0] == '}' ==> read_members(quoted(key) + (seq![':'] + from_value), limit) == Some(
            (seq![(key, value)], after.skip(1)),
        ),
        after[0] == ',' ==> read_members(quoted(key) + (seq![':'] + from_value), limit) == (
        match read_members(after.skip(1), (limit - 1) as nat) {
            Some((more, end)) => Some((seq![(key, value)] + more, end)),
            None => None,
        }),
{
    let from_colon = seq![':'] + from_value;
    let s = quoted(key) + from_colon;
    lemma_escaped_length(key);
    law_string_reads_back(key, from_colon, s.len());
    assert(from_colon.skip(1) =~= from_value);
}

/// The members of an object read back.
#[verifier::spinoff_prover]
proof fn lemma_members_read_back(
    members: Seq<(Seq<char>, Value)>,
    behind: Seq<char>,
    limit: nat,
)
    requires
        members.len() > 0,
        limit > members_text(members).len(),
    ensures
        read_members(members_text(members) + seq!['}'] + behind, limit) == Some((members, behind)),
    decreases members, 1int,
{
    let s = members_text(members) + seq!['}'] + behind;
    let key = members[0].0;
    let value = members[0].1;
    let rest = members.skip(1);
    let more = members_text(rest) + seq!['}'] + behind;
    let after = if members.len() == 1 {
        seq!['}'] + behind
    } else {
        seq![','] + more
    };
    let from_value = value_text(value) + after;
    assert(s =~= quoted(key) + (seq![':'] + from_value));
    lemma_value_reads_back(value, after, (limit - 1) as nat);
    lemma_first_member(key, from_value, value, after, limit);
    if members.len() == 1 {
        assert(after.skip(1) =~= behind);
        assert(seq![(key, value)] =~= members);
    } else {
        assert(after.skip(1) =~= more);
        lemma_members_read_back(rest, behind, (limit - 1) as nat);
        assert(seq![(key, value)] + rest =~= members);
    }
}

/// A finished object is one JSON object, and reads back as exactly the members
/// that were written, in their order; without any it is `{}`.
pub proof fn law_object_reads_back(members: Seq<(Seq<char>, Value)>)
    ensures
        read_object(opened(members).push('}')) == Some(members),
        opened(Seq::empty()).push('}') == seq!['{', '}'],
{
    let s = value_text(Value::Object(members));
    let nothing = Seq::<char>::empty();
    lemma_value_reads_back(Value::Object(members), nothing, s.len());
    assert(s + nothing =~= s);
    assert(opened(members).push('}') =~= s);
    assert(opened(Seq::empty()).push('}') =~= seq!['{', '}']);
}

/// Whatever members are written to a new object, one after the other, what it
/// is finished to reads back as those; `states` are the object before each and
/// after the last.
pub proof fn law_written_object_reads_back(
    states: Seq<Seq<char>>,
    members: Seq<(Seq<char>, Value)>,
)
    requires
        states.len() == members.len() + 1,
        states[0] == seq!['{'],
        forall|i: int|
            0 <= i < members.len() ==> states[i + 1] == with_member(
                states[i],
                (#[trigger] members[i]).0,
                value_text(members[i].1),
            ),
    ensures
        states.last() == opened(members),
        read_object(states.last().push('}')) == Some(members),
{
    lemma_written(states, members, members.len() as int);
    assert(members.take(members.len() as int) =~= members);
    law_object_reads_back(members);
}

/// The first members that are written are there.
proof fn lemma_written(
    states: Seq<Seq<char>>,
    members: Seq<(Seq<char>, Value)>,
    upto: int,
)
    requires
        0 <= upto <= members.len(),
        states.len() == members.len() + 1,
        states[0] == seq!['{'],
        forall|i: int|
            0 <= i < members.len() ==> states[i + 1] == with_member(
                states[i],
                (#[trigger] members[i]).0,
                value_text(members[i].1),
            ),
    ensures
        states[upto] == opened(members.take(upto)),
    decreases upto,
{
    if upto == 0 {
        assert(members.take(0) =~= Seq::empty());
        assert(opened(Seq::empty()) =~= seq!['{']);
    } else {
        let member = members[upto - 1];
        lemma_written(states, members, upto - 1);
        law_object_is_its_members(members.take(upto - 1), member.0, member.1);
        assert(members.take(upto - 1).push(member) =~= members.take(upto));
    }
}

/// A text holds no control character: a line feed among them.
pub open spec fn is_plain(s: Seq<char>) -> bool {
    forall|i: int| 0 <= i < s.len() ==> (#[trigger] s[i]) >= ' '
}

/// Whatever a text holds, as a string it holds no control character.
pub proof fn law_string_is_plain(s: Seq<char>)
    ensures
        is_plain(quoted(s)),
    decreases s.len(),
{
    lemma_escaped_plain(s);
}

/// The same, between the quotes.
proof fn lemma_escaped_plain(s: Seq<char>)
    ensures
        is_plain(escaped_text(s)),
    decreases s.len(),
{
    if s.len() > 0 {
        lemma_escaped_plain(s.drop_last());
        lemma_char_plain(s.last());
    }
}

/// The same, of one character.
proof fn lemma_char_plain(c: char)
    ensures
        is_plain(escaped_char(c)),
{
    let code = c as u32;
    if code < 0x20 {
        let high = code as int / 16;
        let low = code as int % 16;
        assert(0 <= high < 2 && 0 <= low < 16);
        assert(text::digit(high) >= '0' && text::digit(low) >= '0');
    }
    assert(escaped_char(c).len() == 1 ==> c >= ' ');
}

/// An array of strings holds no control character.
pub proof fn lemma_list_plain(texts: Seq<Seq<char>>)
    ensures
        is_plain(quoted_list(texts)),
{
    lemma_comma_quoted_plain(texts);
}

/// The same, between the brackets.
proof fn lemma_comma_quoted_plain(texts: Seq<Seq<char>>)
    ensures
        is_plain(comma_quoted(texts)),
    decreases texts.len(),
{
    if texts.len() == 1 {
        law_string_is_plain(texts[0]);
    } else if texts.len() > 1 {
        lemma_comma_quoted_plain(texts.drop_last());
        law_string_is_plain(texts.last());
    }
}

/// A member without control characters keeps an object without them.
pub proof fn lemma_member_plain(object: Seq<char>, key: Seq<char>, value: Seq<char>)
    requires
        is_plain(object),
        is_plain(value),
    ensures
        is_plain(with_member(object, key, value)),
{
    law_string_is_plain(key);
}

/// A character that needs no escape has none.
proof fn lemma_plain_char(c: char)
    requires
        c >= ' ',
        c != '"',
        c != '\\',
    ensures
        escaped_char(c) == seq![c],
{
    assert(c as u32 >= 32);
}

/// A text without quotes, backslashes and control characters stands between its
/// quotes as it is.
pub proof fn law_plain_text_stays(s: Seq<char>)
    requires
        forall|i: int| 0 <= i < s.len() ==> (#[trigger] s[i]) >= ' ' && s[i] != '"' && s[i] != '\\',
    ensures
        quoted(s) == seq!['"'] + s + seq!['"'],
    decreases s.len(),
{
    if s.len() > 0 {
        let before = s.drop_last();
        assert forall|i: int| 0 <= i < before.len() implies (#[trigger] before[i]) >= ' '
            && before[i] != '"' && before[i] != '\\' by {
            assert(before[i] == s[i]);
        }
        law_plain_text_stays(before);
        assert(quoted(before).subrange(1, quoted(before).len() - 1) =~= escaped_text(before));
        assert(quoted(before).subrange(1, quoted(before).len() - 1) =~= before);
        assert(s[s.len() - 1] >= ' ');
        assert(before.push(s.last()) =~= s);
        lemma_plain_char(s[s.len() - 1]);
        assert(escaped_text(s) =~= s);
    }
    assert(quoted(s) =~= seq!['"'] + s + seq!['"']);
}

} // verus!
