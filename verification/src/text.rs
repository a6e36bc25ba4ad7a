//! Text as sequences of characters: the small readers and writers that the
//! other modules share.

use vstd::prelude::*;
use vstd::slice::slice_subrange;

verus! {

/// `String::push` adds one character at the end of the text.
pub assume_specification[ String::push ](s: &mut String, c: char)
    ensures
        final(s)@ == old(s)@.push(c),
;

// ---------------------------------------------------------------------------
// Conversions
// ---------------------------------------------------------------------------

/// The characters of a text, one by one.
pub fn chars_of(s: &str) -> (r: Vec<char>)
    ensures
        r@ == s@,
{
    let mut out: Vec<char> = Vec::new();
    for c in it: s.chars()
        invariant
            out@ == s@.take(it.index()),
            it.index() <= s@.len(),
            it.seq() == s@,
    {
        out.push(c);
        assert(s@.take(it.index() + 1) =~= s@.take(it.index()).push(c));
    }
    assert(s@.take(s@.len() as int) =~= s@);
    out
}

/// Writes characters at the end of a text.
pub fn push_chars(chars: &[char], out: &mut String)
    ensures
        final(out)@ == old(out)@ + chars@,
{
    let mut i: usize = 0;
    assert(out@ =~= old(out)@ + chars@.take(0));
    while i < chars.len()
        invariant
            i <= chars@.len(),
            out@ == old(out)@ + chars@.take(i as int),
        decreases chars@.len() - i,
    {
        out.push(chars[i]);
        assert(chars@.take(i + 1) =~= chars@.take(i as int).push(chars@[i as int]));
        assert(out@ =~= old(out)@ + chars@.take(i + 1));
        i = i + 1;
    }
    assert(chars@.take(i as int) =~= chars@);
}

/// The text made of these characters.
pub fn from_chars(chars: &[char]) -> (r: String)
    ensures
        r@ == chars@,
{
    let mut out = String::new();
    push_chars(chars, &mut out);
    assert(out@ =~= chars@);
    out
}

/// A copy of a text.
pub fn copy(s: &str) -> (r: String)
    ensures
        r@ == s@,
{
    let mut out = String::new();
    out.append(s);
    assert(out@ =~= s@);
    out
}

/// What the pieces of a list of texts are.
pub open spec fn views(pieces: Seq<Vec<char>>) -> Seq<Seq<char>> {
    Seq::new(pieces.len(), |i: int| pieces[i]@)
}

/// What the texts of a list are.
pub open spec fn string_views(texts: Seq<String>) -> Seq<Seq<char>> {
    Seq::new(texts.len(), |i: int| texts[i]@)
}

/// What an optional text is.
pub open spec fn option_view(text: Option<String>) -> Option<Seq<char>> {
    match text {
        Some(t) => Some(t@),
        None => None,
    }
}

/// Two texts hold the same characters.
pub fn same(a: &[char], b: &[char]) -> (r: bool)
    ensures
        r == (a@ == b@),
{
    if a.len() != b.len() {
        return false;
    }
    let mut i: usize = 0;
    while i < a.len()
        invariant
            i <= a@.len(),
            a@.len() == b@.len(),
            a@.take(i as int) == b@.take(i as int),
        decreases a@.len() - i,
    {
        if a[i] != b[i] {
            assert(a@[i as int] != b@[i as int]);
            return false;
        }
        assert(a@.take(i + 1) =~= a@.take(i as int).push(a@[i as int]));
        assert(b@.take(i + 1) =~= b@.take(i as int).push(b@[i as int]));
        i = i + 1;
    }
    assert(a@.take(i as int) =~= a@);
    assert(b@.take(i as int) =~= b@);
    true
}

// ---------------------------------------------------------------------------
// White space
// ---------------------------------------------------------------------------

/// The characters that Unicode gives the property `White_Space`.
pub open spec fn is_space(c: char) -> bool {
    ||| '\u{9}' <= c <= '\u{d}'
    ||| c == ' '
    ||| c == '\u{85}'
    ||| c == '\u{a0}'
    ||| c == '\u{1680}'
    ||| '\u{2000}' <= c <= '\u{200a}'
    ||| c == '\u{2028}'
    ||| c == '\u{2029}'
    ||| c == '\u{202f}'
    ||| c == '\u{205f}'
    ||| c == '\u{3000}'
}

/// Tells whether a character is white space.
pub fn space(c: char) -> (r: bool)
    ensures
        r == is_space(c),
{
    ('\u{9}' <= c && c <= '\u{d}') || c == ' ' || c == '\u{85}' || c == '\u{a0}' || c == '\u{1680}'
        || ('\u{2000}' <= c && c <= '\u{200a}') || c == '\u{2028}' || c == '\u{2029}' || c
        == '\u{202f}' || c == '\u{205f}' || c == '\u{3000}'
}

/// A text without its leading white space.
pub open spec fn trimmed_start(s: Seq<char>) -> Seq<char>
    decreases s.len(),
{
    if s.len() > 0 && is_space(s[0]) {
        trimmed_start(s.skip(1))
    } else {
        s
    }
}

/// A text without its trailing white space.
pub open spec fn trimmed_end(s: Seq<char>) -> Seq<char>
    decreases s.len(),
{
    if s.len() > 0 && is_space(s.last()) {
        trimmed_end(s.drop_last())
    } else {
        s
    }
}

/// A text without the white space around it.
pub open spec fn trimmed(s: Seq<char>) -> Seq<char> {
    trimmed_end(trimmed_start(s))
}

/// Removes the white space around a text.
pub fn trim(s: &[char]) -> (r: &[char])
    ensures
        r@ == trimmed(s@),
{
    let mut from: usize = 0;
    assert(s@.skip(0) =~= s@);
    while from < s.len() && space(s[from])
        invariant
            from <= s@.len(),
            trimmed_start(s@.skip(from as int)) == trimmed_start(s@),
        decreases s@.len() - from,
    {
        assert(s@.skip(from as int).skip(1) =~= s@.skip(from + 1));
        from = from + 1;
    }
    assert(trimmed_start(s@) =~= s@.skip(from as int));
    let mut to: usize = s.len();
    let ghost rest = s@.skip(from as int);
    assert(s@.subrange(from as int, to as int) =~= rest);
    while to > from && space(s[to - 1])
        invariant
            from <= to <= s@.len(),
            trimmed_end(s@.subrange(from as int, to as int)) == trimmed_end(rest),
        decreases to,
    {
        assert(s@.subrange(from as int, to as int).drop_last() =~= s@.subrange(
            from as int,
            to - 1,
        ));
        to = to - 1;
    }
    slice_subrange(s, from, to)
}

// ---------------------------------------------------------------------------
// Cutting a text into pieces
// ---------------------------------------------------------------------------

/// The pieces of a text between separators: one more than there are
/// separators, empty pieces included.
pub open spec fn pieces(s: Seq<char>, sep: char) -> Seq<Seq<char>>
    decreases s.len(),
{
    if s.len() == 0 {
        seq![Seq::<char>::empty()]
    } else {
        let before = pieces(s.drop_last(), sep);
        if s.last() == sep {
            before.push(Seq::<char>::empty())
        } else {
            before.drop_last().push(before.last().push(s.last()))
        }
    }
}

/// There is always a piece.
pub proof fn lemma_pieces_not_empty(s: Seq<char>, sep: char)
    ensures
        pieces(s, sep).len() > 0,
    decreases s.len(),
{
    if s.len() > 0 {
        lemma_pieces_not_empty(s.drop_last(), sep);
    }
}

/// A text without a separator is one piece.
pub proof fn lemma_pieces_one(s: Seq<char>, sep: char)
    requires
        !s.contains(sep),
    ensures
        pieces(s, sep) == seq![s],
    decreases s.len(),
{
    if s.len() > 0 {
        let shorter = s.drop_last();
        assert(!shorter.contains(sep)) by {
            if shorter.contains(sep) {
                let i = choose|i: int| 0 <= i < shorter.len() && shorter[i] == sep;
                assert(s[i] == sep);
            }
        }
        assert(s[s.len() - 1] == s.last());
        lemma_pieces_one(shorter, sep);
        assert(shorter.push(s.last()) =~= s);
        assert(pieces(s, sep) =~= seq![s]);
    } else {
        assert(s =~= Seq::empty());
        assert(pieces(s, sep) =~= seq![s]);
    }
}

/// The pieces of two texts with a separator between them.
pub proof fn lemma_pieces_join(a: Seq<char>, sep: char, b: Seq<char>)
    ensures
        pieces(a.push(sep) + b, sep) == pieces(a, sep) + pieces(b, sep),
    decreases b.len(),
{
    let s = a.push(sep) + b;
    lemma_pieces_not_empty(b, sep);
    if b.len() == 0 {
        assert(s =~= a.push(sep));
        assert(s.drop_last() =~= a);
        assert(pieces(s, sep) =~= pieces(a, sep) + pieces(b, sep));
    } else {
        assert(s.drop_last() =~= a.push(sep) + b.drop_last());
        lemma_pieces_join(a, sep, b.drop_last());
        lemma_pieces_not_empty(b.drop_last(), sep);
        assert(pieces(s, sep) =~= pieces(a, sep) + pieces(b, sep));
    }
}

/// Cuts a text at each separator.
pub fn split(s: &[char], sep: char) -> (r: Vec<Vec<char>>)
    ensures
        views(r@) == pieces(s@, sep),
        r@.len() > 0,
{
    let mut out: Vec<Vec<char>> = Vec::new();
    let mut last: Vec<char> = Vec::new();
    let mut i: usize = 0;
    assert(views(out@).push(last@) =~= pieces(s@.take(0), sep));
    while i < s.len()
        invariant
            i <= s@.len(),
            views(out@).push(last@) == pieces(s@.take(i as int), sep),
        decreases s@.len() - i,
    {
        let c = s[i];
        let ghost before = views(out@).push(last@);
        let ghost out_before = out@;
        let ghost last_before = last@;
        assert(s@.take(i + 1).drop_last() =~= s@.take(i as int));
        if c == sep {
            out.push(last);
            last = Vec::new();
            assert(views(out@) =~= views(out_before).push(last_before));
        } else {
            last.push(c);
            assert(before.drop_last() =~= views(out@));
        }
        assert(views(out@).push(last@) =~= pieces(s@.take(i + 1), sep));
        i = i + 1;
    }
    assert(s@.take(i as int) =~= s@);
    let ghost out_before = out@;
    let ghost last_before = last@;
    out.push(last);
    assert(views(out@) =~= views(out_before).push(last_before));
    out
}

/// A line without the carriage return that its line feed followed.
pub open spec fn without_return(s: Seq<char>) -> Seq<char> {
    if s.len() > 0 && s.last() == '\r' {
        s.drop_last()
    } else {
        s
    }
}

/// The lines of a text. A line ends at a line feed, with or without a
/// carriage return before it; after the last line it may be missing.
pub open spec fn lines(s: Seq<char>) -> Seq<Seq<char>> {
    let all = pieces(s, '\n');
    let ended = Seq::new((all.len() - 1) as nat, |i: int| without_return(all[i]));
    if all.last().len() == 0 {
        ended
    } else {
        ended.push(all.last())
    }
}

/// A line that ends before another text stands by itself.
pub proof fn lemma_lines_join(a: Seq<char>, b: Seq<char>)
    ensures
        lines(a.push('\n') + b) == lines(a.push('\n')) + lines(b),
{
    let empty = Seq::<char>::empty();
    lemma_pieces_join(a, '\n', b);
    lemma_pieces_join(a, '\n', empty);
    lemma_pieces_not_empty(a, '\n');
    lemma_pieces_not_empty(b, '\n');
    assert(a.push('\n') + empty =~= a.push('\n'));
    assert(pieces(a.push('\n'), '\n').last() =~= empty);
    assert(lines(a.push('\n') + b) =~= lines(a.push('\n')) + lines(b));
}

/// A text without a line feed, and one behind it, is one line.
pub proof fn lemma_one_line(s: Seq<char>)
    requires
        !s.contains('\n'),
    ensures
        lines(s.push('\n')) == seq![without_return(s)],
{
    let empty = Seq::<char>::empty();
    lemma_pieces_join(s, '\n', empty);
    lemma_pieces_one(s, '\n');
    assert(s.push('\n') + empty =~= s.push('\n'));
    assert(pieces(s.push('\n'), '\n') =~= seq![s, empty]);
    assert(lines(s.push('\n')) =~= seq![without_return(s)]);
}

/// Cuts a text into its lines.
pub fn split_lines(s: &[char]) -> (r: Vec<Vec<char>>)
    ensures
        views(r@) == lines(s@),
{
    let all = split(s, '\n');
    let ghost parts = pieces(s@, '\n');
    let n: usize = all.len();
    let mut out: Vec<Vec<char>> = Vec::new();
    let mut i: usize = 0;
    let ghost ended = Seq::new((parts.len() - 1) as nat, |k: int| without_return(parts[k]));
    assert(parts.len() == n) by {
        assert(views(all@).len() == n);
    }
    assert(views(out@) =~= ended.take(0));
    while i + 1 < n
        invariant
            n == all@.len(),
            i < n,
            views(all@) == parts,
            parts.len() == n,
            ended == Seq::new((parts.len() - 1) as nat, |k: int| without_return(parts[k])),
            views(out@) == ended.take(i as int),
        decreases n - i,
    {
        let ghost out_before = out@;
        assert(parts[i as int] == all@[i as int]@);
        let piece = &all[i];
        let len: usize = piece.len();
        let kept: Vec<char>;
        if len > 0 && piece[len - 1] == '\r' {
            kept = copy_chars(slice_subrange(piece.as_slice(), 0, len - 1));
            assert(kept@ =~= parts[i as int].drop_last());
        } else {
            kept = copy_chars(piece.as_slice());
        }
        assert(kept@ == ended[i as int]);
        out.push(kept);
        assert(views(out@) =~= views(out_before).push(ended[i as int]));
        assert(ended.take(i + 1) =~= ended.take(i as int).push(ended[i as int]));
        i = i + 1;
    }
    assert(ended.take(i as int) =~= ended);
    let last = &all[n - 1];
    assert(parts[n - 1] == all@[n - 1]@);
    if last.len() > 0 {
        let ghost out_before = out@;
        let kept = copy_chars(last.as_slice());
        out.push(kept);
        assert(views(out@) =~= views(out_before).push(parts.last()));
    }
    out
}

/// A copy of some characters.
pub fn copy_chars(s: &[char]) -> (r: Vec<char>)
    ensures
        r@ == s@,
{
    let mut out: Vec<char> = Vec::new();
    let mut i: usize = 0;
    while i < s.len()
        invariant
            i <= s@.len(),
            out@ == s@.take(i as int),
        decreases s@.len() - i,
    {
        out.push(s[i]);
        assert(s@.take(i + 1) =~= s@.take(i as int).push(s@[i as int]));
        i = i + 1;
    }
    assert(s@.take(i as int) =~= s@);
    out
}

/// Where a character first stands in a text: its length where it does not.
pub open spec fn position(s: Seq<char>, c: char) -> int
    decreases s.len(),
{
    if s.len() == 0 || s[0] == c {
        0
    } else {
        1 + position(s.skip(1), c)
    }
}

/// What `position` promises.
pub proof fn lemma_position(s: Seq<char>, c: char)
    ensures
        0 <= position(s, c) <= s.len(),
        position(s, c) < s.len() ==> s[position(s, c)] == c,
        forall|i: int| 0 <= i < position(s, c) ==> s[i] != c,
        s.contains(c) <==> position(s, c) < s.len(),
    decreases s.len(),
{
    if s.len() > 0 && s[0] != c {
        lemma_position(s.skip(1), c);
        assert forall|i: int| 0 <= i < position(s, c) implies s[i] != c by {
            if i > 0 {
                assert(s[i] == s.skip(1)[i - 1]);
            }
        }
        if s.contains(c) {
            let k = choose|k: int| 0 <= k < s.len() && s[k] == c;
            assert(s.skip(1)[k - 1] == c);
        }
    }
}

/// Where a separator first stands when what comes before holds none.
pub proof fn lemma_position_behind(head: Seq<char>, sep: char, tail: Seq<char>)
    requires
        !head.contains(sep),
    ensures
        position(head.push(sep) + tail, sep) == head.len(),
{
    let s = head.push(sep) + tail;
    lemma_position(s, sep);
    let at = position(s, sep);
    assert(s[head.len() as int] == sep);
    assert(s.contains(sep));
    if at < head.len() {
        assert(head[at] == s[at]);
        assert(head.contains(sep));
    }
}

/// Finds where a character first stands.
pub fn find(s: &[char], c: char) -> (r: usize)
    ensures
        r == position(s@, c),
        r <= s@.len(),
        r < s@.len() <==> s@.contains(c),
        r < s@.len() ==> s@[r as int] == c,
{
    let mut i: usize = 0;
    assert(s@.skip(0) =~= s@);
    while i < s.len() && s[i] != c
        invariant
            i <= s@.len(),
            position(s@, c) == i + position(s@.skip(i as int), c),
        decreases s@.len() - i,
    {
        assert(s@.skip(i as int).skip(1) =~= s@.skip(i + 1));
        i = i + 1;
    }
    proof {
        lemma_position(s@, c);
    }
    i
}

/// One text stands somewhere in another.
pub open spec fn occurs(needle: Seq<char>, hay: Seq<char>) -> bool {
    exists|at: int| occurs_at(needle, hay, at)
}

/// One text stands in another, from this position on.
pub open spec fn occurs_at(needle: Seq<char>, hay: Seq<char>, at: int) -> bool {
    0 <= at && at + needle.len() <= hay.len() && hay.subrange(at, at + needle.len() as int)
        == needle
}

/// Tells whether one text stands somewhere in another.
pub fn contains(hay: &[char], needle: &[char]) -> (r: bool)
    ensures
        r == occurs(needle@, hay@),
{
    if needle.len() > hay.len() {
        return false;
    }
    let size: usize = needle.len();
    let last: usize = hay.len() - size;
    let mut at: usize = 0;
    loop
        invariant
            size == needle@.len(),
            last + size == hay.len(),
            at <= last,
            forall|k: int| 0 <= k < at ==> !occurs_at(needle@, hay@, k),
        decreases last - at,
    {
        if same(slice_subrange(hay, at, at + size), needle) {
            assert(occurs_at(needle@, hay@, at as int));
            return true;
        }
        if at == last {
            return false;
        }
        at = at + 1;
    }
}

// ---------------------------------------------------------------------------
// Case
// ---------------------------------------------------------------------------

/// A character with an ASCII capital made small.
pub open spec fn lower_char(c: char) -> char {
    if 'A' <= c <= 'Z' {
        (c as u32 + 32) as char
    } else {
        c
    }
}

/// A text with its ASCII capitals made small.
pub open spec fn lowered(s: Seq<char>) -> Seq<char> {
    Seq::new(s.len(), |i: int| lower_char(s[i]))
}

/// Makes an ASCII capital small.
pub fn to_lower_char(c: char) -> (r: char)
    ensures
        r == lower_char(c),
{
    if 'A' <= c && c <= 'Z' {
        (c as u8 + 32u8) as char
    } else {
        c
    }
}

/// Makes the ASCII capitals of a text small.
pub fn to_lower(s: &[char]) -> (r: Vec<char>)
    ensures
        r@ == lowered(s@),
{
    let mut out: Vec<char> = Vec::new();
    let mut i: usize = 0;
    while i < s.len()
        invariant
            i <= s@.len(),
            out@ == lowered(s@).take(i as int),
        decreases s@.len() - i,
    {
        out.push(to_lower_char(s[i]));
        assert(lowered(s@).take(i + 1) =~= lowered(s@).take(i as int).push(
            lower_char(s@[i as int]),
        ));
        i = i + 1;
    }
    assert(lowered(s@).take(i as int) =~= lowered(s@));
    out
}

// ---------------------------------------------------------------------------
// Numbers
// ---------------------------------------------------------------------------

/// The character that writes a digit below sixteen, in small letters.
pub open spec fn digit(d: int) -> char {
    if d < 10 {
        ('0' as int + d) as char
    } else {
        ('a' as int + d - 10) as char
    }
}

/// A number in a base up to sixteen, without leading zeros.
pub open spec fn numeral(n: nat, base: nat) -> Seq<char>
    recommends
        2 <= base <= 16,
    decreases n,
{
    if n < base || base < 2 {
        seq![digit(n as int)]
    } else {
        proof {
            vstd::arithmetic::div_mod::lemma_div_decreases(n as int, base as int);
        }
        numeral(n / base, base).push(digit((n % base) as int))
    }
}

/// A number in decimal.
pub open spec fn decimal(n: nat) -> Seq<char> {
    numeral(n, 10)
}

/// A number in decimal, with its sign where it is negative.
pub open spec fn signed_decimal(n: int) -> Seq<char> {
    if n < 0 {
        seq!['-'] + decimal((-n) as nat)
    } else {
        decimal(n as nat)
    }
}

/// Writes a digit below sixteen.
pub fn digit_char(d: u8) -> (r: char)
    requires
        d < 16,
    ensures
        r == digit(d as int),
{
    if d < 10 {
        (48u8 + d) as char
    } else {
        (87u8 + d) as char
    }
}

/// Writes a number in decimal at the end of a text.
pub fn push_decimal(n: u64, out: &mut String)
    ensures
        final(out)@ == old(out)@ + decimal(n as nat),
    decreases n,
{
    if n >= 10 {
        push_decimal(n / 10, out);
    }
    out.push(digit_char((n % 10) as u8));
    assert(out@ =~= old(out)@ + decimal(n as nat));
}

/// Writes a number in hexadecimal at the end of a text.
pub fn push_hex(n: u16, out: &mut String)
    ensures
        final(out)@ == old(out)@ + numeral(n as nat, 16),
    decreases n,
{
    if n >= 16 {
        push_hex(n / 16, out);
    }
    out.push(digit_char((n % 16) as u8));
    assert(out@ =~= old(out)@ + numeral(n as nat, 16));
}

/// Writes a number in decimal, with its sign, at the end of a text.
pub fn push_signed(n: i64, out: &mut String)
    ensures
        final(out)@ == old(out)@ + signed_decimal(n as int),
{
    if n < 0 {
        out.push('-');
        let magnitude: u64 = if n == i64::MIN {
            0x8000_0000_0000_0000u64
        } else {
            (-n) as u64
        };
        push_decimal(magnitude, out);
        assert(out@ =~= old(out)@ + signed_decimal(n as int));
    } else {
        push_decimal(n as u64, out);
    }
}

/// The decimal text of a number.
pub fn decimal_text(n: u64) -> (r: String)
    ensures
        r@ == decimal(n as nat),
{
    let mut out = String::new();
    push_decimal(n, &mut out);
    assert(out@ =~= decimal(n as nat));
    out
}

/// A character is a decimal digit.
pub open spec fn is_digit(c: char) -> bool {
    '0' <= c <= '9'
}

/// Every character is a decimal digit.
pub open spec fn all_digits(s: Seq<char>) -> bool {
    forall|i: int| 0 <= i < s.len() ==> is_digit(#[trigger] s[i])
}

/// The number that decimal digits write.
pub open spec fn digits_value(s: Seq<char>) -> nat
    decreases s.len(),
{
    if s.len() == 0 {
        0
    } else {
        digits_value(s.drop_last()) * 10 + (s.last() as int - '0' as int) as nat
    }
}

/// The number that a text writes in decimal, if it is one no greater than
/// `max`: digits, at least one, with or without a plus sign before them.
pub open spec fn unsigned_value(s: Seq<char>, max: nat) -> Option<nat> {
    let body = if s.len() > 0 && s[0] == '+' {
        s.skip(1)
    } else {
        s
    };
    if body.len() > 0 && all_digits(body) && digits_value(body) <= max {
        Some(digits_value(body))
    } else {
        None
    }
}

/// The number that a text writes in decimal with or without a sign, if it is
/// one of 64 bits.
pub open spec fn signed_value(s: Seq<char>) -> Option<int> {
    if s.len() > 0 && s[0] == '-' {
        let body = s.skip(1);
        if body.len() > 0 && all_digits(body) && digits_value(body) <= 0x8000_0000_0000_0000 {
            Some(-digits_value(body))
        } else {
            None
        }
    } else {
        match unsigned_value(s, 0x7fff_ffff_ffff_ffff) {
            Some(n) => Some(n as int),
            None => None,
        }
    }
}

/// More digits make no smaller number.
pub proof fn lemma_digits_grow(s: Seq<char>, upto: int)
    requires
        0 <= upto <= s.len(),
        all_digits(s),
    ensures
        digits_value(s.take(upto)) <= digits_value(s),
    decreases s.len(),
{
    if upto < s.len() {
        assert(s.drop_last().take(upto) =~= s.take(upto));
        lemma_digits_grow(s.drop_last(), upto);
    } else {
        assert(s.take(upto) =~= s);
    }
}

/// A number in decimal is made of digits, has no leading zero, and reads back
/// as itself.
pub proof fn lemma_decimal(n: nat)
    ensures
        decimal(n).len() > 0,
        all_digits(decimal(n)),
        digits_value(decimal(n)) == n,
        n > 0 ==> decimal(n)[0] != '0',
        n == 0 ==> decimal(n).len() == 1,
    decreases n,
{
    let s = decimal(n);
    if n < 10 {
        assert(s =~= seq![digit(n as int)]);
        assert(s.drop_last() =~= Seq::empty());
        assert(digits_value(s.drop_last()) == 0);
    } else {
        lemma_decimal(n / 10);
        let head = decimal(n / 10);
        assert(s =~= head.push(digit((n % 10) as int)));
        assert(s.drop_last() =~= head);
        assert(s[0] == head[0]);
        assert(is_digit(digit((n % 10) as int)));
    }
}

/// Reads decimal digits as a number no greater than `max`.
pub fn read_digits(s: &[char], max: u64) -> (r: Option<u64>)
    ensures
        match r {
            Some(n) => s@.len() > 0 && all_digits(s@) && n == digits_value(s@) && n <= max,
            None => !(s@.len() > 0 && all_digits(s@) && digits_value(s@) <= max),
        },
{
    if s.len() == 0 {
        return None;
    }
    let mut n: u64 = 0;
    let mut i: usize = 0;
    while i < s.len()
        invariant
            i <= s@.len(),
            all_digits(s@.take(i as int)),
            n == digits_value(s@.take(i as int)),
            n <= max,
        decreases s@.len() - i,
    {
        let c = s[i];
        if !('0' <= c && c <= '9') {
            assert(!is_digit(s@[i as int]));
            return None;
        }
        let d: u64 = (c as u8 - 48u8) as u64;
        let ghost upto = s@.take(i + 1);
        assert(upto.drop_last() =~= s@.take(i as int));
        assert(digits_value(upto) == n * 10 + d);
        proof {
            if all_digits(s@) {
                lemma_digits_grow(s@, i + 1);
            }
        }
        if n > (u64::MAX - d) / 10 {
            assert(n * 10 + d > u64::MAX);
            return None;
        }
        n = n * 10 + d;
        if n > max {
            return None;
        }
        assert(all_digits(upto));
        i = i + 1;
    }
    assert(s@.take(i as int) =~= s@);
    Some(n)
}

/// Reads a number no greater than `max`.
pub fn read_unsigned(s: &[char], max: u64) -> (r: Option<u64>)
    ensures
        match r {
            Some(n) => unsigned_value(s@, max as nat) == Some(n as nat) && n <= max,
            None => unsigned_value(s@, max as nat) is None,
        },
{
    if s.len() > 0 && s[0] == '+' {
        let body = slice_subrange(s, 1, s.len());
        assert(body@ =~= s@.skip(1));
        read_digits(body, max)
    } else {
        read_digits(s, max)
    }
}

/// Reads a number of 64 bits, with or without a sign.
pub fn read_signed(s: &[char]) -> (r: Option<i64>)
    ensures
        match r {
            Some(n) => signed_value(s@) == Some(n as int),
            None => signed_value(s@) is None,
        },
{
    if s.len() > 0 && s[0] == '-' {
        let body = slice_subrange(s, 1, s.len());
        assert(body@ =~= s@.skip(1));
        match read_digits(body, 0x8000_0000_0000_0000u64) {
            Some(n) => if n == 0x8000_0000_0000_0000u64 {
                Some(i64::MIN)
            } else {
                Some(-(n as i64))
            },
            None => None,
        }
    } else {
        match read_unsigned(s, 0x7fff_ffff_ffff_ffffu64) {
            Some(n) => Some(n as i64),
            None => None,
        }
    }
}

// ---------------------------------------------------------------------------
// Laws
// ---------------------------------------------------------------------------

/// Parts with a separator between each two.
pub open spec fn joined(parts: Seq<Seq<char>>, sep: char) -> Seq<char>
    decreases parts.len(),
{
    if parts.len() == 0 {
        Seq::empty()
    } else if parts.len() == 1 {
        parts[0]
    } else {
        joined(parts.drop_last(), sep).push(sep) + parts.last()
    }
}

/// Parts put together with a separator that none of them holds are read back,
/// the empty ones with them.
pub proof fn law_pieces_read_back(parts: Seq<Seq<char>>, sep: char)
    requires
        parts.len() > 0,
        forall|i: int| 0 <= i < parts.len() ==> !(#[trigger] parts[i]).contains(sep),
    ensures
        pieces(joined(parts, sep), sep) == parts,
    decreases parts.len(),
{
    let last = parts.last();
    lemma_pieces_one(last, sep);
    if parts.len() == 1 {
        assert(pieces(joined(parts, sep), sep) =~= parts);
    } else {
        let before = parts.drop_last();
        assert forall|i: int| 0 <= i < before.len() implies !(#[trigger] before[i]).contains(
            sep,
        ) by {
            assert(before[i] == parts[i]);
        }
        law_pieces_read_back(before, sep);
        lemma_pieces_join(joined(before, sep), sep, last);
        assert(pieces(joined(parts, sep), sep) =~= parts);
    }
}

/// Lines, each ended by a line feed, some with a carriage return before it.
pub open spec fn ended(lines: Seq<(Seq<char>, bool)>) -> Seq<char>
    decreases lines.len(),
{
    if lines.len() == 0 {
        Seq::empty()
    } else {
        let (line, returned) = lines[0];
        (if returned {
            line.push('\r')
        } else {
            line
        }).push('\n') + ended(lines.skip(1))
    }
}

/// The texts of lines.
pub open spec fn line_texts(lines: Seq<(Seq<char>, bool)>) -> Seq<Seq<char>> {
    Seq::new(lines.len(), |i: int| lines[i].0)
}

/// Lines are read back however they end, the last with or without a line
/// feed.
pub proof fn law_lines_read_back(all: Seq<(Seq<char>, bool)>, last: Seq<char>)
    requires
        forall|i: int|
            0 <= i < all.len() ==> !(#[trigger] all[i]).0.contains('\n') && (all[i].0.len() == 0
                || all[i].0.last() != '\r'),
        !last.contains('\n'),
    ensures
        lines(ended(all) + last) == line_texts(all) + (if last.len() > 0 {
            seq![last]
        } else {
            Seq::empty()
        }),
    decreases all.len(),
{
    let expected = line_texts(all) + (if last.len() > 0 {
        seq![last]
    } else {
        Seq::empty()
    });
    if all.len() == 0 {
        assert(ended(all) + last =~= last);
        lemma_pieces_one(last, '\n');
        assert(lines(last) =~= expected);
    } else {
        let (line, returned) = all[0];
        let rest = all.skip(1);
        let first = if returned {
            line.push('\r')
        } else {
            line
        };
        assert(!all[0].0.contains('\n'));
        assert(!first.contains('\n')) by {
            if first.contains('\n') {
                let i = choose|i: int| 0 <= i < first.len() && first[i] == '\n';
                assert(line[i] == '\n');
            }
        }
        assert forall|i: int| 0 <= i < rest.len() implies !(#[trigger] rest[i]).0.contains('\n')
            && (rest[i].0.len() == 0 || rest[i].0.last() != '\r') by {
            assert(rest[i] == all[i + 1]);
        }
        law_lines_read_back(rest, last);
        lemma_one_line(first);
        assert(without_return(first) =~= line);
        lemma_lines_join(first, ended(rest) + last);
        assert(ended(all) + last =~= first.push('\n') + (ended(rest) + last));
        assert(lines(ended(all) + last) =~= expected);
    }
}

/// White space is what Unicode lists as such, character by character.
pub proof fn law_white_space(c: char)
    ensures
        is_space(c) <==> seq![
            0x9int,
            0xa,
            0xb,
            0xc,
            0xd,
            0x20,
            0x85,
            0xa0,
            0x1680,
            0x2000,
            0x2001,
            0x2002,
            0x2003,
            0x2004,
            0x2005,
            0x2006,
            0x2007,
            0x2008,
            0x2009,
            0x200a,
            0x2028,
            0x2029,
            0x202f,
            0x205f,
            0x3000,
        ].contains(c as int),
{
    let all = seq![
        0x9int,
        0xa,
        0xb,
        0xc,
        0xd,
        0x20,
        0x85,
        0xa0,
        0x1680,
        0x2000,
        0x2001,
        0x2002,
        0x2003,
        0x2004,
        0x2005,
        0x2006,
        0x2007,
        0x2008,
        0x2009,
        0x200a,
        0x2028,
        0x2029,
        0x202f,
        0x205f,
        0x3000,
    ];
    let n = c as int;
    if 0x9 <= n <= 0xd {
        assert(all[n - 0x9] == n);
    } else if 0x2000 <= n <= 0x200a {
        assert(all[9 + n - 0x2000] == n);
    } else if is_space(c) {
        assert(all[5] == 0x20 && all[6] == 0x85 && all[7] == 0xa0 && all[8] == 0x1680 && all[20]
            == 0x2028 && all[21] == 0x2029 && all[22] == 0x202f && all[23] == 0x205f && all[24]
            == 0x3000);
    }
}

/// Every character is white space.
pub open spec fn all_spaces(s: Seq<char>) -> bool {
    forall|i: int| 0 <= i < s.len() ==> is_space(#[trigger] s[i])
}

/// A text that white space neither starts nor ends.
pub open spec fn is_tight(s: Seq<char>) -> bool {
    s.len() > 0 ==> !is_space(s[0]) && !is_space(s.last())
}

/// Trimming takes the white space around a text, and nothing else.
pub proof fn law_only_space_is_trimmed(before: Seq<char>, inside: Seq<char>, after: Seq<char>)
    requires
        all_spaces(before),
        is_tight(inside),
        all_spaces(after),
    ensures
        trimmed(before + inside + after) == inside,
{
    lemma_start_trimmed(before, inside + after);
    assert(before + inside + after =~= before + (inside + after));
    if inside.len() == 0 {
        assert(inside + after =~= after);
        lemma_start_trimmed(after, Seq::empty());
        assert(after + Seq::<char>::empty() =~= after);
        assert(inside =~= Seq::empty());
    } else {
        assert((inside + after)[0] == inside[0]);
        lemma_end_trimmed(inside, after);
    }
}

/// White space before a text is taken.
proof fn lemma_start_trimmed(before: Seq<char>, rest: Seq<char>)
    requires
        all_spaces(before),
    ensures
        trimmed_start(before + rest) == trimmed_start(rest),
    decreases before.len(),
{
    if before.len() == 0 {
        assert(before + rest =~= rest);
    } else {
        let fewer = before.skip(1);
        assert forall|i: int| 0 <= i < fewer.len() implies is_space(#[trigger] fewer[i]) by {
            assert(fewer[i] == before[i + 1]);
        }
        lemma_start_trimmed(fewer, rest);
        assert(is_space(before[0]));
        assert((before + rest).skip(1) =~= fewer + rest);
    }
}

/// White space behind a text is taken.
proof fn lemma_end_trimmed(rest: Seq<char>, after: Seq<char>)
    requires
        all_spaces(after),
    ensures
        trimmed_end(rest + after) == trimmed_end(rest),
    decreases after.len(),
{
    if after.len() == 0 {
        assert(rest + after =~= rest);
    } else {
        let fewer = after.drop_last();
        assert forall|i: int| 0 <= i < fewer.len() implies is_space(#[trigger] fewer[i]) by {
            assert(fewer[i] == after[i]);
        }
        lemma_end_trimmed(rest, fewer);
        assert(is_space(after[after.len() - 1]));
        assert((rest + after).drop_last() =~= rest + fewer);
    }
}

/// A text that white space neither starts nor ends is left as it is.
pub proof fn lemma_tight_stays(s: Seq<char>)
    requires
        is_tight(s),
    ensures
        trimmed(s) == s,
{
    let none = Seq::<char>::empty();
    law_only_space_is_trimmed(none, s, none);
    assert(none + s + none =~= s);
}

/// A text that holds more than white space is not trimmed to nothing.
pub proof fn lemma_filled_stays(s: Seq<char>, at: int)
    requires
        0 <= at < s.len(),
        !is_space(s[at]),
    ensures
        trimmed(s).len() > 0,
{
    lemma_start_kept(s, at);
    let inside = trimmed_start(s);
    let back = at - (s.len() - inside.len());
    lemma_end_kept(inside, back);
}

/// What stands behind leading white space is kept.
proof fn lemma_start_kept(s: Seq<char>, at: int)
    requires
        0 <= at < s.len(),
        !is_space(s[at]),
    ensures
        s.len() - at <= trimmed_start(s).len() <= s.len(),
        trimmed_start(s)[at - (s.len() - trimmed_start(s).len())] == s[at],
    decreases s.len(),
{
    if is_space(s[0]) {
        lemma_start_kept(s.skip(1), at - 1);
    }
}

/// What stands before trailing white space is kept.
proof fn lemma_end_kept(s: Seq<char>, at: int)
    requires
        0 <= at < s.len(),
        !is_space(s[at]),
    ensures
        at < trimmed_end(s).len(),
    decreases s.len(),
{
    if is_space(s.last()) {
        lemma_end_kept(s.drop_last(), at);
    }
}

/// Each capital of the alphabet is made the small letter in its place, and
/// every other character is kept.
pub proof fn law_capitals_are_made_small(s: Seq<char>)
    ensures
        lowered(s).len() == s.len(),
        forall|i: int, k: int|
            #![trigger s[i], "ABCDEFGHIJKLMNOPQRSTUVWXYZ"@[k]]
            0 <= i < s.len() && 0 <= k < 26 && s[i] == "ABCDEFGHIJKLMNOPQRSTUVWXYZ"@[k] ==> lowered(
                s,
            )[i] == "abcdefghijklmnopqrstuvwxyz"@[k],
        forall|i: int|
            0 <= i < s.len() && !"ABCDEFGHIJKLMNOPQRSTUVWXYZ"@.contains(#[trigger] s[i])
                ==> lowered(s)[i] == s[i],
{
    reveal_strlit("ABCDEFGHIJKLMNOPQRSTUVWXYZ");
    reveal_strlit("abcdefghijklmnopqrstuvwxyz");
    let capitals = "ABCDEFGHIJKLMNOPQRSTUVWXYZ"@;
    let small = "abcdefghijklmnopqrstuvwxyz"@;
    assert forall|k: int| 0 <= k < 26 implies #[trigger] capitals[k] as int == 65 + k && small[k]
        as int == 97 + k by {}
    assert forall|i: int| 0 <= i < s.len() && !capitals.contains(#[trigger] s[i]) implies lowered(
        s,
    )[i] == s[i] by {
        if 'A' <= s[i] <= 'Z' {
            assert(capitals[s[i] as int - 65] == s[i]);
        }
    }
}

/// Some zeros.
pub open spec fn zeros(count: nat) -> Seq<char> {
    Seq::new(count, |i: int| '0')
}

/// Zeros before digits change no number.
pub proof fn lemma_leading_zeros(count: nat, s: Seq<char>)
    requires
        all_digits(s),
    ensures
        all_digits(zeros(count) + s),
        digits_value(zeros(count) + s) == digits_value(s),
    decreases s.len(), count,
{
    let whole = zeros(count) + s;
    assert forall|i: int| 0 <= i < whole.len() implies is_digit(#[trigger] whole[i]) by {
        if i >= count {
            assert(is_digit(s[i - count]));
        }
    }
    if s.len() > 0 {
        let fewer = s.drop_last();
        assert forall|i: int| 0 <= i < fewer.len() implies is_digit(#[trigger] fewer[i]) by {
            assert(fewer[i] == s[i]);
        }
        lemma_leading_zeros(count, fewer);
        assert(whole.drop_last() =~= zeros(count) + fewer);
        assert(whole.last() == s.last());
    } else if count > 0 {
        lemma_leading_zeros((count - 1) as nat, s);
        assert(whole.drop_last() =~= zeros((count - 1) as nat) + s);
        assert(whole.last() == '0');
    }
}

/// A number written in decimal reads back, up to the greatest that is asked
/// for and no further: with or without a plus sign and zeros before it.
pub proof fn law_number_reads_back(n: nat, max: nat, count: nat)
    ensures
        unsigned_value(zeros(count) + decimal(n), max) == (if n <= max {
            Some(n)
        } else {
            None
        }),
        unsigned_value(seq!['+'] + (zeros(count) + decimal(n)), max) == (if n <= max {
            Some(n)
        } else {
            None
        }),
{
    let digits = zeros(count) + decimal(n);
    let signed = seq!['+'] + digits;
    lemma_decimal(n);
    lemma_leading_zeros(count, decimal(n));
    assert(is_digit(digits[0]));
    assert(signed.skip(1) =~= digits);
}

/// A number written in decimal reads back.
pub proof fn lemma_decimal_reads_back(n: nat, max: nat)
    requires
        n <= max,
    ensures
        unsigned_value(decimal(n), max) == Some(n),
{
    law_number_reads_back(n, max, 0);
    assert(zeros(0) + decimal(n) =~= decimal(n));
}

/// A text that holds anything but digits, behind a plus sign at its start, is
/// no number; nor is one without a digit.
pub proof fn law_other_texts_are_no_numbers(s: Seq<char>, at: int, max: nat)
    requires
        0 <= at < s.len(),
        !is_digit(s[at]),
        at > 0 || s[0] != '+' || s.len() == 1,
    ensures
        unsigned_value(s, max) is None,
        unsigned_value(Seq::empty(), max) is None,
        s[0] != '-' ==> signed_value(s) is None,
{
    if s[0] == '+' && at > 0 {
        assert(s.skip(1)[at - 1] == s[at]);
    }
}

/// Every number of 64 bits with a sign reads back, and none that is greater or
/// smaller.
pub proof fn law_signed_number_reads_back(n: int)
    ensures
        signed_value(signed_decimal(n)) == (if i64::MIN <= n <= i64::MAX {
            Some(n)
        } else {
            None
        }),
{
    let s = signed_decimal(n);
    if n < 0 {
        lemma_decimal((-n) as nat);
        assert(s.skip(1) =~= decimal((-n) as nat));
    } else {
        lemma_decimal(n as nat);
        assert(is_digit(s[0]));
    }
}

/// A text stands where it was put.
pub proof fn lemma_occurs(before: Seq<char>, needle: Seq<char>, after: Seq<char>)
    ensures
        occurs(needle, before + needle + after),
{
    let hay = before + needle + after;
    let at = before.len() as int;
    assert(hay.subrange(at, at + needle.len() as int) =~= needle);
    assert(occurs_at(needle, hay, at));
}

/// What stands around a text that occurs in another.
pub proof fn lemma_occurrence(hay: Seq<char>, needle: Seq<char>) -> (around: (
    Seq<char>,
    Seq<char>,
))
    requires
        occurs(needle, hay),
    ensures
        hay == around.0 + needle + around.1,
{
    let at = choose|at: int| occurs_at(needle, hay, at);
    let a = hay.take(at);
    let b = hay.skip(at + needle.len());
    assert(hay =~= a + needle + b);
    (a, b)
}

/// The pieces of a text, put together again, are the text.
pub proof fn lemma_pieces_joined(s: Seq<char>, sep: char)
    ensures
        joined(pieces(s, sep), sep) == s,
    decreases s.len(),
{
    if s.len() == 0 {
        assert(joined(pieces(s, sep), sep) =~= s);
    } else {
        let before = pieces(s.drop_last(), sep);
        let all = pieces(s, sep);
        lemma_pieces_not_empty(s.drop_last(), sep);
        lemma_pieces_joined(s.drop_last(), sep);
        assert(s.drop_last().push(s.last()) =~= s);
        if s.last() == sep {
            assert(all.drop_last() =~= before);
            assert(joined(all, sep) =~= s);
        } else {
            assert(all.drop_last() =~= before.drop_last());
            assert(joined(all, sep) =~= s);
        }
    }
}

/// Digits without a leading zero are the number that they write, in decimal.
pub proof fn lemma_canonical_digits(s: Seq<char>)
    requires
        s.len() > 0,
        all_digits(s),
        s.len() > 1 ==> s[0] != '0',
    ensures
        decimal(digits_value(s)) == s,
    decreases s.len(),
{
    let n = digits_value(s);
    let head = s.drop_last();
    assert(is_digit(s[s.len() - 1]));
    let d = s.last() as int - '0' as int;
    assert(digit(d) == s.last());
    if s.len() == 1 {
        assert(digits_value(head) == 0);
        assert(decimal(n) =~= s);
    } else {
        assert forall|i: int| 0 <= i < head.len() implies is_digit(#[trigger] head[i]) by {
            assert(head[i] == s[i]);
        }
        lemma_canonical_digits(head);
        let first = head.take(1);
        assert(first.drop_last() =~= Seq::empty());
        assert(is_digit(s[0]));
        assert(first.last() == s[0]);
        assert(digits_value(first.drop_last()) == 0);
        assert(digits_value(first) >= 1);
        lemma_digits_grow(head, 1);
        let m = digits_value(head);
        assert(n == m * 10 + d);
        assert(n / 10 == m && n % 10 == d);
        assert(decimal(n) == decimal(m).push(digit(d)));
        assert(decimal(n) =~= s);
    }
}

} // verus!
