//! Lines and numbers in the bytes of a maze description.

use vstd::prelude::*;
use vstd::slice::slice_subrange;

verus! {

/// The byte that ends a line.
pub const NEWLINE: u8 = 0x0a;

/// Where the line that begins at `from` ends: at the first newline from
/// there on, or at the end of the text.
pub open spec fn line_end(text: Seq<u8>, from: int) -> int
    decreases text.len() - from,
{
    if from < 0 || from >= text.len() || text[from] == NEWLINE {
        from
    } else {
        line_end(text, from + 1)
    }
}

/// The lines of the text from position `from` on. A newline ends a line
/// and does not belong to it; every other byte, a carriage return too,
/// belongs to its line. Text after the last newline is a line too.
pub open spec fn lines_from(text: Seq<u8>, from: int) -> Seq<Seq<u8>>
    decreases text.len() - from,
{
    if from < 0 || from >= text.len() {
        Seq::empty()
    } else {
        proof {
            lemma_line_end_bounds(text, from);
        }
        let end = line_end(text, from);
        seq![text.subrange(from, end)] + if end < text.len() {
            lines_from(text, end + 1)
        } else {
            Seq::empty()
        }
    }
}

/// The lines of the text.
pub open spec fn lines(text: Seq<u8>) -> Seq<Seq<u8>> {
    lines_from(text, 0)
}

/// A line ends at or after its beginning, within the text, at a newline
/// or at the end, and holds no newline.
pub proof fn lemma_line_end_bounds(text: Seq<u8>, from: int)
    requires
        0 <= from <= text.len(),
    ensures
        from <= line_end(text, from) <= text.len(),
        line_end(text, from) < text.len() ==> text[line_end(text, from)] == NEWLINE,
        forall|i: int| from <= i < line_end(text, from) ==> text[i] != NEWLINE,
    decreases text.len() - from,
{
    if from < text.len() && text[from] != NEWLINE {
        lemma_line_end_bounds(text, from + 1);
    }
}

/// A space, a tab, a line feed, a vertical tab, a form feed or a carriage
/// return.
pub open spec fn is_blank(b: u8) -> bool {
    b == 0x20 || (0x09 <= b <= 0x0d)
}

/// A decimal digit.
pub open spec fn is_digit(b: u8) -> bool {
    0x30 <= b <= 0x39
}

/// The first position from `from` on that holds no blank, or the length.
pub open spec fn skip_blanks(s: Seq<u8>, from: int) -> int
    decreases s.len() - from,
{
    if from < 0 || from >= s.len() || !is_blank(s[from]) {
        from
    } else {
        skip_blanks(s, from + 1)
    }
}

/// The position after the last byte before `to` that is no blank, or zero.
pub open spec fn drop_blanks(s: Seq<u8>, to: int) -> int
    decreases to,
{
    if to <= 0 || to > s.len() || !is_blank(s[to - 1]) {
        to
    } else {
        drop_blanks(s, to - 1)
    }
}

/// The bytes without the blanks at both ends.
pub open spec fn trimmed(s: Seq<u8>) -> Seq<u8> {
    let a = skip_blanks(s, 0);
    let b = drop_blanks(s, s.len() as int);
    if a < b {
        s.subrange(a, b)
    } else {
        Seq::empty()
    }
}

/// The number that a sequence of digits writes in base ten.
pub open spec fn decimal(digits: Seq<u8>) -> nat
    decreases digits.len(),
{
    if digits.len() == 0 {
        0
    } else {
        decimal(digits.drop_last()) * 10 + (digits.last() - 0x30) as nat
    }
}

/// The digits of a trimmed number: what follows one plus sign, if there is
/// one.
pub open spec fn unsigned(t: Seq<u8>) -> Seq<u8> {
    if t.len() > 0 && t[0] == 0x2b {
        t.subrange(1, t.len() as int)
    } else {
        t
    }
}

/// The number that a line writes: blanks at both ends are passed over, one
/// plus sign may come first, and what is left must be one or more digits
/// whose value fits in 32 bits. Any other line writes no number.
pub open spec fn number(line: Seq<u8>) -> Option<u32> {
    let d = unsigned(trimmed(line));
    if d.len() > 0 && (forall|i: int| 0 <= i < d.len() ==> is_digit(#[trigger] d[i])) && decimal(d)
        <= u32::MAX {
        Some(decimal(d) as u32)
    } else {
        None
    }
}

/// Cuts the text into its lines.
pub fn split_lines<'a>(text: &'a [u8]) -> (out: Vec<&'a [u8]>)
    ensures
        out@.len() == lines(text@).len(),
        forall|i: int| 0 <= i < out@.len() ==> (#[trigger] out@[i])@ == lines(text@)[i],
{
    let mut out: Vec<&'a [u8]> = Vec::new();
    let mut from: usize = 0;
    while from < text.len()
        invariant
            from <= text@.len(),
            lines(text@).len() == out@.len() + lines_from(text@, from as int).len(),
            forall|i: int| 0 <= i < out@.len() ==> (#[trigger] out@[i])@ == lines(text@)[i],
            forall|i: int|
                0 <= i < lines_from(text@, from as int).len() ==> lines(text@)[out@.len() + i]
                    == #[trigger] lines_from(text@, from as int)[i],
        decreases text@.len() - from,
    {
        let mut end: usize = from;
        while end < text.len() && text[end] != NEWLINE
            invariant
                from <= end <= text@.len(),
                line_end(text@, from as int) == line_end(text@, end as int),
            decreases text@.len() - end,
        {
            end = end + 1;
        }
        proof {
            lemma_line_end_bounds(text@, from as int);
            let rest = lines_from(text@, if end < text@.len() { end as int + 1 } else { end as int });
            assert(lines_from(text@, from as int) =~= seq![text@.subrange(from as int, end as int)]
                + rest);
            assert(lines_from(text@, from as int)[0] == text@.subrange(from as int, end as int));
            assert forall|i: int| 0 <= i < rest.len() implies lines(text@)[out@.len() + 1 + i]
                == #[trigger] rest[i] by {
                assert(lines_from(text@, from as int)[i + 1] == rest[i]);
            }
        }
        out.push(slice_subrange(text, from, end));
        from = if end < text.len() {
            end + 1
        } else {
            end
        };
    }
    out
}

/// Reads the number that a line writes.
pub fn parse_number(line: &[u8]) -> (out: Option<u32>)
    ensures
        out == number(line@),
{
    let n = line.len();
    let mut a: usize = 0;
    while a < n && blank(line[a])
        invariant
            a <= n,
            n == line@.len(),
            skip_blanks(line@, 0) == skip_blanks(line@, a as int),
        decreases n - a,
    {
        a = a + 1;
    }
    let mut b: usize = n;
    while b > 0 && blank(line[b - 1])
        invariant
            b <= n,
            n == line@.len(),
            drop_blanks(line@, n as int) == drop_blanks(line@, b as int),
        decreases b,
    {
        b = b - 1;
    }
    if a >= b {
        return None;
    }
    let ghost t = trimmed(line@);
    assert(t == line@.subrange(a as int, b as int));
    if line[a] == 0x2b {
        a = a + 1;
    }
    let ghost d = unsigned(t);
    assert(d =~= line@.subrange(a as int, b as int));
    if a >= b {
        return None;
    }
    let mut value: u64 = 0;
    let mut i: usize = a;
    while i < b
        invariant
            a <= i <= b <= n,
            n == line@.len(),
            d == unsigned(trimmed(line@)),
            d == line@.subrange(a as int, b as int),
            forall|j: int| 0 <= j < i - a ==> is_digit(#[trigger] d[j]),
            value <= u32::MAX + 1,
            value <= u32::MAX ==> value == decimal(d.subrange(0, i - a)),
            value > u32::MAX ==> decimal(d.subrange(0, i - a)) > u32::MAX,
        decreases b - i,
    {
        let byte = line[i];
        if byte < 0x30 || byte > 0x39 {
            assert(!is_digit(d[i - a]));
            return None;
        }
        proof {
            let next = d.subrange(0, i - a + 1);
            assert(next.drop_last() =~= d.subrange(0, i - a));
            assert(next.last() == byte);
        }
        if value <= 0xffff_ffff {
            value = value * 10 + (byte - 0x30) as u64;
            if value > 0xffff_ffff {
                value = 0x1_0000_0000;
            }
        }
        i = i + 1;
    }
    assert(d.subrange(0, b - a) =~= d);
    if value > 0xffff_ffff {
        None
    } else {
        Some(value as u32)
    }
}

/// Whether a byte is a blank.
fn blank(b: u8) -> (r: bool)
    ensures
        r == is_blank(b),
{
    b == 0x20 || (0x09 <= b && b <= 0x0d)
}

} // verus!
