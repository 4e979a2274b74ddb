//! Byte-level text: ASCII literals, decimal numbers and lines.

use vstd::prelude::*;
use vstd::slice::slice_subrange;
use vstd::utf8::encode_utf8;
use vstd::utf8::is_ascii_chars;
use vstd::utf8::is_ascii_chars_encode_utf8;

verus! {

pub const LINE_FEED: u8 = 10;

pub const CARRIAGE_RETURN: u8 = 13;

pub const PLUS_SIGN: u8 = 43;

pub const DIGIT_ZERO: u8 = 48;

pub const DIGIT_NINE: u8 = 57;

/// The bytes of a text whose characters are all ASCII: one byte per
/// character.
pub open spec fn ascii(text: Seq<char>) -> Seq<u8> {
    Seq::new(text.len(), |i: int| text[i] as u8)
}

/// An ASCII text is encoded as its characters, one byte each.
pub proof fn lemma_ascii_encoding(text: Seq<char>)
    requires
        is_ascii_chars(text),
    ensures
        encode_utf8(text) == ascii(text),
{
    is_ascii_chars_encode_utf8(text);
    assert(encode_utf8(text) =~= ascii(text));
}

/// The bytes of a string slice.
pub fn bytes_of(text: &str) -> (r: &[u8])
    ensures
        r@ == encode_utf8(text@),
{
    text.as_bytes()
}

/// Whether two byte strings hold the same bytes.
pub fn bytes_eq(a: &[u8], b: &[u8]) -> (r: bool)
    ensures
        r == (a@ == b@),
{
    if a.len() != b.len() {
        return false;
    }
    let mut i: usize = 0;
    while i < a.len()
        invariant
            i <= a.len(),
            a.len() == b.len(),
            forall|k: int| 0 <= k < i ==> a@[k] == b@[k],
        decreases a.len() - i,
    {
        if a[i] != b[i] {
            return false;
        }
        i += 1;
    }
    assert(a@ =~= b@);
    true
}

/// Appends a copy of `bytes` to `out`.
pub fn push_bytes(out: &mut Vec<u8>, bytes: &[u8])
    ensures
        final(out)@ == old(out)@ + bytes@,
{
    let mut i: usize = 0;
    while i < bytes.len()
        invariant
            i <= bytes.len(),
            out@ == old(out)@ + bytes@.take(i as int),
        decreases bytes.len() - i,
    {
        out.push(bytes[i]);
        assert(bytes@.take(i as int + 1) =~= bytes@.take(i as int).push(bytes@[i as int]));
        i += 1;
    }
    assert(bytes@.take(bytes.len() as int) =~= bytes@);
}

// ---------------------------------------------------------------------------
// Decimal numbers
// ---------------------------------------------------------------------------

pub open spec fn is_digit(b: u8) -> bool {
    DIGIT_ZERO <= b <= DIGIT_NINE
}

pub open spec fn all_digits(s: Seq<u8>) -> bool {
    forall|i: int| 0 <= i < s.len() ==> is_digit(#[trigger] s[i])
}

/// The number that a string of decimal digits denotes, most significant
/// digit first.
pub open spec fn digits_value(s: Seq<u8>) -> nat
    decreases s.len(),
{
    if s.len() == 0 {
        0
    } else {
        digits_value(s.drop_last()) * 10 + (s.last() - DIGIT_ZERO) as nat
    }
}

/// What remains of a number's text once an optional leading `+` is dropped.
pub open spec fn unsigned_part(s: Seq<u8>) -> Seq<u8> {
    if s.len() > 0 && s[0] == PLUS_SIGN {
        s.skip(1)
    } else {
        s
    }
}

/// Reads a natural number: an optional `+`, then one or more decimal digits
/// and nothing else.
pub open spec fn parse_decimal(s: Seq<u8>) -> Option<nat> {
    let digits = unsigned_part(s);
    if digits.len() > 0 && all_digits(digits) {
        Some(digits_value(digits))
    } else {
        None
    }
}

/// Reads a natural number that fits the machine's word.
pub open spec fn parse_size(s: Seq<u8>) -> Option<usize> {
    match parse_decimal(s) {
        Some(n) => if n <= usize::MAX {
            Some(n as usize)
        } else {
            None
        },
        None => None,
    }
}

/// The shortest decimal text of a natural number.
pub open spec fn decimal(n: nat) -> Seq<u8>
    decreases n,
{
    if n < 10 {
        seq![(DIGIT_ZERO + n) as u8]
    } else {
        decimal(n / 10).push((DIGIT_ZERO + n % 10) as u8)
    }
}

/// A number's value is at least the value of each prefix of its digits.
pub proof fn lemma_digits_value_prefix(s: Seq<u8>, n: int)
    requires
        0 <= n <= s.len(),
    ensures
        digits_value(s.take(n)) <= digits_value(s),
    decreases s.len(),
{
    if n == s.len() {
        assert(s.take(n) =~= s);
    } else {
        assert(s.drop_last().take(n) =~= s.take(n));
        lemma_digits_value_prefix(s.drop_last(), n);
    }
}

/// The decimal text of a number is made of digits and is never empty.
pub proof fn lemma_decimal_digits(n: nat)
    ensures
        decimal(n).len() > 0,
        all_digits(decimal(n)),
        digits_value(decimal(n)) == n,
    decreases n,
{
    if n < 10 {
        let s = decimal(n);
        assert(s.drop_last() =~= Seq::<u8>::empty());
        assert(digits_value(s.drop_last()) == 0);
    } else {
        lemma_decimal_digits(n / 10);
        let s = decimal(n);
        let head = decimal(n / 10);
        assert(s.drop_last() =~= head);
        assert forall|i: int| 0 <= i < s.len() implies is_digit(#[trigger] s[i]) by {
            if i < head.len() {
                assert(s[i] == head[i]);
            }
        }
    }
}

/// Reading the decimal text of a number gives the number back.
pub proof fn lemma_parse_decimal_of_decimal(n: nat)
    ensures
        parse_decimal(decimal(n)) == Some(n),
{
    lemma_decimal_digits(n);
    let s = decimal(n);
    assert(is_digit(s[0]));
}

/// Reads a machine word from its decimal text.
pub fn parse_usize(line: &[u8]) -> (r: Option<usize>)
    ensures
        r == parse_size(line@),
{
    let n: usize = line.len();
    let start: usize = if n > 0 && line[0] == PLUS_SIGN {
        1
    } else {
        0
    };
    let ghost digits = unsigned_part(line@);
    assert(digits =~= line@.skip(start as int));
    if start == n {
        return None;
    }
    let mut acc: usize = 0;
    let mut i: usize = start;
    while i < n
        invariant
            start <= i <= n,
            n == line@.len(),
            digits == unsigned_part(line@),
            digits == line@.skip(start as int),
            all_digits(digits.take(i - start)),
            acc == digits_value(digits.take(i - start)),
        decreases n - i,
    {
        let b: u8 = line[i];
        if b < DIGIT_ZERO || b > DIGIT_NINE {
            assert(!is_digit(digits[i - start]));
            return None;
        }
        let ghost before = digits.take(i - start);
        let ghost after = digits.take(i - start + 1);
        proof {
            assert(after.drop_last() =~= before);
            assert(after.last() == b);
            assert forall|k: int| 0 <= k < after.len() implies is_digit(#[trigger] after[k]) by {
                if k < before.len() {
                    assert(after[k] == before[k]);
                }
            }
            lemma_digits_value_prefix(digits, i - start + 1);
        }
        let d: usize = (b - DIGIT_ZERO) as usize;
        let next: Option<usize> = match acc.checked_mul(10) {
            Some(tens) => tens.checked_add(d),
            None => None,
        };
        match next {
            Some(v) => {
                acc = v;
            },
            None => {
                proof {
                    if all_digits(digits) {
                        assert(digits_value(after) > usize::MAX);
                    }
                }
                return None;
            },
        }
        i += 1;
    }
    assert(digits.take(n - start) =~= digits);
    Some(acc)
}

/// Appends the decimal text of `n` to `out`.
pub fn push_decimal(out: &mut Vec<u8>, n: usize)
    ensures
        final(out)@ == old(out)@ + decimal(n as nat),
    decreases n,
{
    if n >= 10 {
        push_decimal(out, n / 10);
    }
    let digit: u8 = (n % 10) as u8;
    out.push(DIGIT_ZERO + digit);
    proof {
        if n >= 10 {
            assert(old(out)@ + decimal(n as nat) =~= (old(out)@ + decimal((n / 10) as nat)).push(
                (DIGIT_ZERO + n % 10) as u8,
            ));
        } else {
            assert(old(out)@ + decimal(n as nat) =~= old(out)@.push((DIGIT_ZERO + n) as u8));
        }
    }
}

// ---------------------------------------------------------------------------
// Lines
// ---------------------------------------------------------------------------

/// The position of the first line feed in `text`, or the length of `text`
/// where it holds none.
pub open spec fn first_break(text: Seq<u8>) -> int
    decreases text.len(),
{
    if text.len() == 0 || text[0] == LINE_FEED {
        0
    } else {
        1 + first_break(text.drop_first())
    }
}

/// A line without the carriage return that may end it.
pub open spec fn trim_return(line: Seq<u8>) -> Seq<u8> {
    if line.len() > 0 && line.last() == CARRIAGE_RETURN {
        line.drop_last()
    } else {
        line
    }
}

/// The lines of a text. A line ends at a line feed, or at a carriage return
/// directly followed by one; neither belongs to the line. What follows the
/// last line feed is a line only where it is not empty.
pub open spec fn lines_of(text: Seq<u8>) -> Seq<Seq<u8>>
    decreases text.len(),
{
    if text.len() == 0 {
        Seq::empty()
    } else {
        let n = first_break(text);
        if n < 0 || n >= text.len() {
            seq![text]
        } else {
            seq![trim_return(text.take(n))] + lines_of(text.skip(n + 1))
        }
    }
}

/// Lines joined by single line feeds, with none after the last line.
pub open spec fn join_lines(lines: Seq<Seq<u8>>) -> Seq<u8>
    decreases lines.len(),
{
    if lines.len() == 0 {
        Seq::empty()
    } else if lines.len() == 1 {
        lines[0]
    } else {
        lines[0] + seq![LINE_FEED] + join_lines(lines.drop_first())
    }
}

/// A line that comes back unchanged when a text holding it is split: it has
/// no line feed and does not end in a carriage return.
pub open spec fn plain_line(line: Seq<u8>) -> bool {
    &&& forall|i: int| 0 <= i < line.len() ==> #[trigger] line[i] != LINE_FEED
    &&& line.len() > 0 ==> line.last() != CARRIAGE_RETURN
}

pub proof fn lemma_first_break_bounds(text: Seq<u8>)
    ensures
        0 <= first_break(text) <= text.len(),
        first_break(text) < text.len() ==> text[first_break(text)] == LINE_FEED,
        forall|i: int| 0 <= i < first_break(text) ==> #[trigger] text[i] != LINE_FEED,
    decreases text.len(),
{
    if text.len() == 0 || text[0] == LINE_FEED {
    } else {
        let rest = text.drop_first();
        lemma_first_break_bounds(rest);
        assert forall|i: int| 0 <= i < first_break(text) implies #[trigger] text[i]
            != LINE_FEED by {
            if i > 0 {
                assert(text[i] == rest[i - 1]);
            }
        }
    }
}

/// The first line feed is where a line feed stands after none.
pub proof fn lemma_first_break_at(text: Seq<u8>, n: int)
    requires
        0 <= n <= text.len(),
        forall|i: int| 0 <= i < n ==> #[trigger] text[i] != LINE_FEED,
        n < text.len() ==> text[n] == LINE_FEED,
    ensures
        first_break(text) == n,
{
    lemma_first_break_bounds(text);
    let m = first_break(text);
    if m < n {
        assert(text[m] != LINE_FEED);
    } else if m > n {
        assert(text[n] != LINE_FEED);
    }
}

/// Joining one more line onto the end of some lines.
pub proof fn lemma_join_push(lines: Seq<Seq<u8>>, line: Seq<u8>)
    requires
        lines.len() > 0,
    ensures
        join_lines(lines.push(line)) == join_lines(lines) + seq![LINE_FEED] + line,
    decreases lines.len(),
{
    let all = lines.push(line);
    assert(all.drop_first() =~= lines.drop_first().push(line));
    if lines.len() == 1 {
        assert(all.drop_first() =~= seq![line]);
        assert(join_lines(all.drop_first()) == line);
        assert(join_lines(all) =~= join_lines(lines) + seq![LINE_FEED] + line);
    } else {
        lemma_join_push(lines.drop_first(), line);
        assert(join_lines(all) =~= join_lines(lines) + seq![LINE_FEED] + line);
    }
}

/// Splitting the join of plain lines gives the lines back, provided the last
/// of them is not empty.
pub proof fn lemma_lines_of_join(lines: Seq<Seq<u8>>)
    requires
        lines.len() > 0,
        forall|i: int| 0 <= i < lines.len() ==> plain_line(#[trigger] lines[i]),
        lines.last().len() > 0,
    ensures
        lines_of(join_lines(lines)) == lines,
    decreases lines.len(),
{
    let text = join_lines(lines);
    let head = lines[0];
    assert(plain_line(head));
    if lines.len() == 1 {
        assert(lines.last() == head);
        lemma_first_break_at(text, text.len() as int);
        assert(lines_of(text) =~= lines);
    } else {
        let rest = lines.drop_first();
        assert(text == head + seq![LINE_FEED] + join_lines(rest));
        lemma_first_break_at(text, head.len() as int);
        assert(text.take(head.len() as int) =~= head);
        assert(text.skip(head.len() as int + 1) =~= join_lines(rest));
        assert forall|i: int| 0 <= i < rest.len() implies plain_line(#[trigger] rest[i]) by {
            assert(rest[i] == lines[i + 1]);
        }
        assert(rest.last() == lines.last());
        lemma_lines_of_join(rest);
        assert(trim_return(head) == head);
        assert(lines_of(text) =~= seq![head] + rest);
        assert(seq![head] + rest =~= lines);
    }
}

/// Whether a line holds no line feed and does not end in a carriage
/// return.
pub fn is_plain_line(line: &[u8]) -> (r: bool)
    ensures
        r == plain_line(line@),
{
    let n: usize = line.len();
    if n > 0 && line[n - 1] == CARRIAGE_RETURN {
        return false;
    }
    let mut i: usize = 0;
    while i < n
        invariant
            i <= n,
            n == line@.len(),
            forall|k: int| 0 <= k < i ==> #[trigger] line@[k] != LINE_FEED,
        decreases n - i,
    {
        if line[i] == LINE_FEED {
            return false;
        }
        i += 1;
    }
    true
}

/// A text with more lines after it, a line feed before each.
pub open spec fn append_lines(text: Seq<u8>, lines: Seq<Seq<u8>>) -> Seq<u8>
    decreases lines.len(),
{
    if lines.len() == 0 {
        text
    } else {
        append_lines(text, lines.drop_last()) + seq![LINE_FEED] + lines.last()
    }
}

/// Appending one line.
pub proof fn lemma_append_one(text: Seq<u8>, line: Seq<u8>)
    ensures
        append_lines(text, seq![line]) == text + seq![LINE_FEED] + line,
{
    let one = seq![line];
    assert(one.drop_last() =~= Seq::<Seq<u8>>::empty());
    assert(append_lines(text, one.drop_last()) == text);
}

/// Appending lines in two runs.
pub proof fn lemma_append_append(text: Seq<u8>, a: Seq<Seq<u8>>, b: Seq<Seq<u8>>)
    ensures
        append_lines(text, a + b) == append_lines(append_lines(text, a), b),
    decreases b.len(),
{
    if b.len() == 0 {
        assert(a + b =~= a);
    } else {
        lemma_append_append(text, a, b.drop_last());
        assert((a + b).drop_last() =~= a + b.drop_last());
        assert((a + b).last() == b.last());
    }
}

/// Joining lines is appending the later ones to the join of the earlier.
pub proof fn lemma_join_append(a: Seq<Seq<u8>>, b: Seq<Seq<u8>>)
    requires
        a.len() > 0,
    ensures
        join_lines(a + b) == append_lines(join_lines(a), b),
    decreases b.len(),
{
    if b.len() == 0 {
        assert(a + b =~= a);
    } else {
        lemma_join_append(a, b.drop_last());
        assert(a + b =~= (a + b.drop_last()).push(b.last()));
        lemma_join_push(a + b.drop_last(), b.last());
    }
}

/// Appends a line feed and a line to `out`.
pub fn push_line(out: &mut Vec<u8>, line: &[u8])
    ensures
        final(out)@ == append_lines(old(out)@, seq![line@]),
{
    out.push(LINE_FEED);
    push_bytes(out, line);
    proof {
        lemma_append_one(old(out)@, line@);
        assert(out@ =~= old(out)@ + seq![LINE_FEED] + line@);
    }
}

/// Appends a line feed and the decimal text of `n` to `out`.
pub fn push_number_line(out: &mut Vec<u8>, n: usize)
    ensures
        final(out)@ == append_lines(old(out)@, seq![decimal(n as nat)]),
{
    out.push(LINE_FEED);
    push_decimal(out, n);
    proof {
        lemma_append_one(old(out)@, decimal(n as nat));
        assert(out@ =~= old(out)@ + seq![LINE_FEED] + decimal(n as nat));
    }
}

/// Where the line that starts at `from` ends: the position of the next line
/// feed, or the end of the text.
pub fn line_end(text: &[u8], from: usize) -> (end: usize)
    requires
        from <= text@.len(),
    ensures
        end == from + first_break(text@.skip(from as int)),
        from <= end <= text@.len(),
{
    let mut end: usize = from;
    while end < text.len() && text[end] != LINE_FEED
        invariant
            from <= end <= text@.len(),
            forall|i: int| from <= i < end ==> #[trigger] text@[i] != LINE_FEED,
        decreases text.len() - end,
    {
        end += 1;
    }
    proof {
        let rest = text@.skip(from as int);
        assert forall|i: int| 0 <= i < end - from implies #[trigger] rest[i] != LINE_FEED by {
            assert(rest[i] == text@[from + i]);
        }
        lemma_first_break_at(rest, end - from);
    }
    end
}

/// The line of `text` that starts at `from` and is ended by the line feed at
/// `end`, or by the end of the text.
pub fn line_at(text: &[u8], from: usize, end: usize) -> (line: &[u8])
    requires
        from <= end <= text@.len(),
    ensures
        end < text@.len() ==> line@ == trim_return(text@.subrange(from as int, end as int)),
        end == text@.len() ==> line@ == text@.subrange(from as int, end as int),
{
    if end < text.len() && end > from && text[end - 1] == CARRIAGE_RETURN {
        let line = slice_subrange(text, from, end - 1);
        assert(line@ =~= text@.subrange(from as int, end as int).drop_last());
        line
    } else {
        slice_subrange(text, from, end)
    }
}

} // verus!
