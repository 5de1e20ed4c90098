//! Byte-level reading of the text files of the Unicode Character Database:
//! lines, comments, `;`-delimited fields and hexadecimal numbers.

use vstd::prelude::*;

verus! {

/// The byte that ends a line.
pub const LINE_FEED_BYTE: u8 = 0x0A;

/// The byte that may stand before the one that ends a line.
pub const CARRIAGE_RETURN_BYTE: u8 = 0x0D;

/// The byte that starts a comment.
pub const COMMENT_BYTE: u8 = 0x23;

/// The byte that separates fields.
pub const FIELD_BYTE: u8 = 0x3B;

/// The byte that separates the items of a list within a field.
pub const SPACE_BYTE: u8 = 0x20;

/// The position of the first `b` in `s` at or after `from`, or the length
/// of `s` where there is none.
pub open spec fn find_from(s: Seq<u8>, b: u8, from: int) -> int
    decreases s.len() - from,
{
    if from >= s.len() {
        s.len() as int
    } else if s[from] == b {
        from
    } else {
        find_from(s, b, from + 1)
    }
}

/// [`find_from`] gives a position from `from` on, before which no `b`
/// stands, and at which a `b` stands unless it is the end of `s`.
pub proof fn lemma_find_from(s: Seq<u8>, b: u8, from: int)
    requires
        0 <= from <= s.len(),
    ensures
        from <= find_from(s, b, from) <= s.len(),
        forall|i: int| from <= i < find_from(s, b, from) ==> s[i] != b,
        find_from(s, b, from) < s.len() ==> s[find_from(s, b, from)] == b,
    decreases s.len() - from,
{
    if from < s.len() && s[from] != b {
        lemma_find_from(s, b, from + 1);
    }
}

/// The position of the first `b` in `s` at or after `from`, or the length
/// of `s` where there is none.
pub fn find_byte(s: &[u8], b: u8, from: usize) -> (at: usize)
    requires
        from <= s.len(),
    ensures
        at == find_from(s@, b, from as int),
        from <= at <= s.len(),
{
    let mut i: usize = from;
    while i < s.len() && s[i] != b
        invariant
            from <= i <= s.len(),
            find_from(s@, b, from as int) == find_from(s@, b, i as int),
        decreases s.len() - i,
    {
        i += 1;
    }
    i
}

/// A copy of the bytes of `s` from `from` up to `to`.
pub fn copy_range(s: &[u8], from: usize, to: usize) -> (copy: Vec<u8>)
    requires
        from <= to <= s.len(),
    ensures
        copy@ == s@.subrange(from as int, to as int),
{
    let mut copy: Vec<u8> = Vec::new();
    let mut i: usize = from;
    while i < to
        invariant
            from <= i <= to <= s.len(),
            copy@ == s@.subrange(from as int, i as int),
        decreases to - i,
    {
        copy.push(s[i]);
        proof {
            assert(copy@ =~= s@.subrange(from as int, i + 1));
        }
        i += 1;
    }
    copy
}

/// Where the line that starts at `from` ends: at the next line feed, or at
/// the end of the text.
pub open spec fn line_end(text: Seq<u8>, from: int) -> int {
    find_from(text, LINE_FEED_BYTE, from)
}

/// The line of `text` that starts at `from`, without the line feed that
/// ends it and without a carriage return before that line feed.
pub open spec fn line_at(text: Seq<u8>, from: int) -> Seq<u8> {
    let end = line_end(text, from);
    if from < end < text.len() && text[end - 1] == CARRIAGE_RETURN_BYTE {
        text.subrange(from, end - 1)
    } else {
        text.subrange(from, end)
    }
}

/// Where the line after the one at `from` starts.
pub open spec fn next_line_start(text: Seq<u8>, from: int) -> int {
    let end = line_end(text, from);
    if end < text.len() {
        end + 1
    } else {
        end
    }
}

/// Read the line of `text` that starts at `from`: its first byte, the byte
/// after its last, and where the next line starts.
pub fn read_line(text: &[u8], from: usize) -> (bounds: (usize, usize, usize))
    requires
        from < text.len(),
    ensures
        bounds.0 == from,
        bounds.0 <= bounds.1 <= text.len(),
        text@.subrange(bounds.0 as int, bounds.1 as int) == line_at(text@, from as int),
        bounds.2 == next_line_start(text@, from as int),
        from < bounds.2 <= text.len(),
{
    let end = find_byte(text, LINE_FEED_BYTE, from);
    if end < text.len() {
        if from < end && text[end - 1] == CARRIAGE_RETURN_BYTE {
            (from, end - 1, end + 1)
        } else {
            (from, end, end + 1)
        }
    } else {
        (from, end, end)
    }
}

/// What is left of `line` when a comment, which runs from the first `#` to
/// the end of the line, is dropped.
pub open spec fn without_comment(line: Seq<u8>) -> Seq<u8> {
    line.subrange(0, find_from(line, COMMENT_BYTE, 0))
}

/// The fields of `s`, which `sep` separates. A text without `sep` is one
/// field, and so is the empty text.
pub open spec fn split(s: Seq<u8>, sep: u8) -> Seq<Seq<u8>>
    decreases s.len(),
{
    let at = find_from(s, sep, 0);
    if 0 <= at < s.len() {
        seq![s.subrange(0, at)] + split(s.subrange(at + 1, s.len() as int), sep)
    } else {
        seq![s]
    }
}

/// The byte sequences that the vectors of `fields` hold.
pub open spec fn views(fields: Seq<Vec<u8>>) -> Seq<Seq<u8>> {
    fields.map_values(|field: Vec<u8>| field@)
}

/// Searching in what follows `from` is searching in the whole from `from`.
proof fn lemma_find_in_suffix(s: Seq<u8>, b: u8, from: int, at: int)
    requires
        0 <= from <= at <= s.len(),
    ensures
        find_from(s.subrange(from, s.len() as int), b, at - from) == find_from(s, b, at) - from,
    decreases s.len() - at,
{
    let tail = s.subrange(from, s.len() as int);
    if at < s.len() {
        assert(tail[at - from] == s[at]);
        if s[at] != b {
            lemma_find_in_suffix(s, b, from, at + 1);
        }
    }
}

/// Searching in what stands before `to` finds what searching in the whole
/// finds, or the end.
proof fn lemma_find_in_prefix(s: Seq<u8>, b: u8, to: int, at: int)
    requires
        0 <= at <= to <= s.len(),
    ensures
        find_from(s.subrange(0, to), b, at) == if find_from(s, b, at) < to {
            find_from(s, b, at)
        } else {
            to
        },
    decreases to - at,
{
    let head = s.subrange(0, to);
    if at < to {
        assert(head[at] == s[at]);
        if s[at] != b {
            lemma_find_in_prefix(s, b, to, at + 1);
        }
    } else {
        lemma_find_from(s, b, at);
    }
}

/// The fields of `s[from..to]`, which `sep` separates, each copied out.
pub fn split_fields(s: &[u8], from: usize, to: usize, sep: u8) -> (fields: Vec<Vec<u8>>)
    requires
        from <= to <= s.len(),
    ensures
        views(fields@) == split(s@.subrange(from as int, to as int), sep),
        fields.len() >= 1,
{
    let ghost whole = s@.subrange(from as int, to as int);
    let mut fields: Vec<Vec<u8>> = Vec::new();
    let mut start: usize = from;
    loop
        invariant
            from <= start <= to <= s.len(),
            whole == s@.subrange(from as int, to as int),
            views(fields@) + split(s@.subrange(start as int, to as int), sep) == split(whole, sep),
        decreases to - start,
    {
        let ghost rest = s@.subrange(start as int, to as int);
        let found = find_byte(s, sep, start);
        let at = if found < to {
            found
        } else {
            to
        };
        proof {
            lemma_find_in_prefix(s@, sep, to as int, start as int);
            lemma_find_in_suffix(s@.subrange(0, to as int), sep, start as int, start as int);
            assert(s@.subrange(0, to as int).subrange(start as int, to as int) =~= rest);
            assert(find_from(rest, sep, 0) == at - start);
            assert(rest.subrange(0, at - start) =~= s@.subrange(start as int, at as int));
        }
        let field = copy_range(s, start, at);
        let ghost before = fields@;
        fields.push(field);
        proof {
            assert(views(fields@) =~= views(before) + seq![field@]);
        }
        if at < to {
            proof {
                assert(rest.subrange(at - start + 1, rest.len() as int) =~= s@.subrange(
                    at + 1,
                    to as int,
                ));
                assert(views(before) + (seq![field@] + split(
                    s@.subrange(at + 1, to as int),
                    sep,
                )) =~= views(fields@) + split(s@.subrange(at + 1, to as int), sep));
            }
            start = at + 1;
        } else {
            proof {
                assert(split(rest, sep) == seq![rest]);
                assert(views(before) + seq![rest] =~= views(fields@));
            }
            return fields;
        }
    }
}

/// Whether `b` is a byte of ASCII white space: a space, a tab, a line feed,
/// a vertical tab, a form feed or a carriage return.
pub open spec fn is_blank(b: u8) -> bool {
    b == 0x20 || (0x09 <= b && b <= 0x0D)
}

/// `s` without the white space that it starts with.
pub open spec fn trim_start(s: Seq<u8>) -> Seq<u8>
    decreases s.len(),
{
    if s.len() > 0 && is_blank(s[0]) {
        trim_start(s.drop_first())
    } else {
        s
    }
}

/// `s` without the white space that it ends with.
pub open spec fn trim_end(s: Seq<u8>) -> Seq<u8>
    decreases s.len(),
{
    if s.len() > 0 && is_blank(s.last()) {
        trim_end(s.drop_last())
    } else {
        s
    }
}

/// `s` without the white space around it.
pub open spec fn trim(s: Seq<u8>) -> Seq<u8> {
    trim_end(trim_start(s))
}

/// Whether `b` is a byte of ASCII white space.
pub fn is_blank_byte(b: u8) -> (blank: bool)
    ensures
        blank == is_blank(b),
{
    b == 0x20 || (0x09 <= b && b <= 0x0D)
}

/// The bounds of `s[from..to]` without the white space around it.
pub fn trim_bounds(s: &[u8], from: usize, to: usize) -> (bounds: (usize, usize))
    requires
        from <= to <= s.len(),
    ensures
        from <= bounds.0 <= bounds.1 <= to,
        s@.subrange(bounds.0 as int, bounds.1 as int) == trim(
            s@.subrange(from as int, to as int),
        ),
{
    let mut lo: usize = from;
    while lo < to && is_blank_byte(s[lo])
        invariant
            from <= lo <= to <= s.len(),
            trim_start(s@.subrange(from as int, to as int)) == trim_start(
                s@.subrange(lo as int, to as int),
            ),
        decreases to - lo,
    {
        proof {
            assert(s@.subrange(lo as int, to as int).drop_first() =~= s@.subrange(
                lo + 1,
                to as int,
            ));
        }
        lo += 1;
    }
    let mut hi: usize = to;
    while lo < hi && is_blank_byte(s[hi - 1])
        invariant
            from <= lo <= hi <= to <= s.len(),
            trim_start(s@.subrange(from as int, to as int)) == s@.subrange(lo as int, to as int),
            trim_end(s@.subrange(lo as int, to as int)) == trim_end(
                s@.subrange(lo as int, hi as int),
            ),
        decreases hi - lo,
    {
        proof {
            assert(s@.subrange(lo as int, hi as int).drop_last() =~= s@.subrange(
                lo as int,
                hi - 1,
            ));
        }
        hi -= 1;
    }
    (lo, hi)
}

/// A copy of `s` without the white space around it.
pub fn trimmed(s: &Vec<u8>) -> (copy: Vec<u8>)
    ensures
        copy@ == trim(s@),
{
    let (lo, hi) = trim_bounds(s.as_slice(), 0, s.len());
    proof {
        assert(s@.subrange(0, s@.len() as int) =~= s@);
    }
    copy_range(s.as_slice(), lo, hi)
}

/// The number that the hexadecimal digit `b` stands for.
pub open spec fn hex_digit(b: u8) -> Option<u8> {
    if 0x30 <= b <= 0x39 {
        Some((b - 0x30) as u8)
    } else if 0x41 <= b <= 0x46 {
        Some((b - 0x41 + 10) as u8)
    } else if 0x61 <= b <= 0x66 {
        Some((b - 0x61 + 10) as u8)
    } else {
        None
    }
}

/// Whether `s` is a hexadecimal number: one digit or more, and digits only.
pub open spec fn is_hex(s: Seq<u8>) -> bool {
    s.len() > 0 && forall|i: int| 0 <= i < s.len() ==> hex_digit(#[trigger] s[i]) is Some
}

/// The number that the hexadecimal digits `s` stand for, the first digit
/// weighing most.
pub open spec fn hex_value(s: Seq<u8>) -> nat
    decreases s.len(),
{
    if s.len() == 0 {
        0
    } else {
        hex_value(s.drop_last()) * 16 + match hex_digit(s.last()) {
            Some(d) => d as nat,
            None => 0,
        }
    }
}

/// The number that `s` stands for, where `s` is a hexadecimal number of at
/// most `max`.
pub open spec fn hex_number(s: Seq<u8>, max: nat) -> Option<u32> {
    if is_hex(s) && hex_value(s) <= max && max <= u32::MAX {
        Some(hex_value(s) as u32)
    } else {
        None
    }
}

/// More digits do not make a number smaller.
proof fn lemma_hex_value_grows(s: Seq<u8>, n: int)
    requires
        0 <= n <= s.len(),
    ensures
        hex_value(s.subrange(0, n)) <= hex_value(s),
    decreases s.len() - n,
{
    if n < s.len() {
        lemma_hex_value_grows(s, n + 1);
        assert(s.subrange(0, n + 1).drop_last() =~= s.subrange(0, n));
    } else {
        assert(s.subrange(0, n) =~= s);
    }
}

/// The number that the hexadecimal digit `b` stands for.
pub fn hex_digit_value(b: u8) -> (digit: Option<u8>)
    ensures
        digit == hex_digit(b),
{
    if 0x30 <= b && b <= 0x39 {
        Some(b - 0x30)
    } else if 0x41 <= b && b <= 0x46 {
        Some(b - 0x41 + 10)
    } else if 0x61 <= b && b <= 0x66 {
        Some(b - 0x61 + 10)
    } else {
        None
    }
}

/// Read `s` as a hexadecimal number of at most `max`.
pub fn parse_hex(s: &Vec<u8>, max: u32) -> (number: Option<u32>)
    ensures
        number == hex_number(s@, max as nat),
{
    if s.len() == 0 {
        return None;
    }
    let mut value: u32 = 0;
    let mut i: usize = 0;
    while i < s.len()
        invariant
            i <= s.len(),
            value == hex_value(s@.subrange(0, i as int)),
            value <= max,
            forall|j: int| 0 <= j < i ==> hex_digit(#[trigger] s@[j]) is Some,
        decreases s.len() - i,
    {
        proof {
            assert(s@.subrange(0, i + 1).drop_last() =~= s@.subrange(0, i as int));
            lemma_hex_value_grows(s@, i + 1);
        }
        match hex_digit_value(s[i]) {
            None => {
                return None;
            },
            Some(digit) => {
                let next: u64 = value as u64 * 16 + digit as u64;
                if next > max as u64 {
                    return None;
                }
                value = next as u32;
            },
        }
        i += 1;
    }
    proof {
        assert(s@.subrange(0, i as int) =~= s@);
    }
    Some(value)
}

/// What a line says: the line without its comment.
pub open spec fn content_at(text: Seq<u8>, from: int) -> Seq<u8> {
    without_comment(line_at(text, from))
}

/// Where the first line at or after `from` starts that says something, or
/// the length of `text` where every line left is empty or a comment.
pub open spec fn content_start(text: Seq<u8>, from: int) -> int
    decreases text.len() - from,
{
    if from < 0 || from >= text.len() {
        text.len() as int
    } else if content_at(text, from).len() > 0 {
        from
    } else if from < next_line_start(text, from) <= text.len() {
        content_start(text, next_line_start(text, from))
    } else {
        text.len() as int
    }
}

/// A line starts after the line before it.
pub proof fn lemma_next_line_start(text: Seq<u8>, from: int)
    requires
        0 <= from < text.len(),
    ensures
        from < next_line_start(text, from) <= text.len(),
{
    lemma_find_from(text, LINE_FEED_BYTE, from);
}

/// [`content_start`] gives a position from `from` on, within the text.
pub proof fn lemma_content_start(text: Seq<u8>, from: int)
    requires
        0 <= from <= text.len(),
    ensures
        from <= content_start(text, from) <= text.len(),
        content_start(text, from) < text.len() ==> content_at(
            text,
            content_start(text, from),
        ).len() > 0,
    decreases text.len() - from,
{
    if from < text.len() && content_at(text, from).len() == 0 {
        lemma_next_line_start(text, from);
        lemma_content_start(text, next_line_start(text, from));
    }
}

/// Find the first line at or after `from` that says something: where it
/// starts, where what it says ends, and where the next line starts. All
/// three are the length of `text` where no such line is left.
pub fn next_content(text: &[u8], from: usize) -> (bounds: (usize, usize, usize))
    requires
        from <= text.len(),
    ensures
        bounds.0 == content_start(text@, from as int),
        from <= bounds.0 <= bounds.1 <= bounds.2 <= text.len(),
        bounds.0 < text.len() ==> {
            &&& bounds.0 < bounds.1
            &&& text@.subrange(bounds.0 as int, bounds.1 as int) == content_at(
                text@,
                bounds.0 as int,
            )
            &&& bounds.2 == next_line_start(text@, bounds.0 as int)
        },
        bounds.0 == text.len() ==> bounds.1 == text.len() && bounds.2 == text.len(),
{
    let mut start: usize = from;
    while start < text.len()
        invariant
            from <= start <= text.len(),
            content_start(text@, from as int) == content_start(text@, start as int),
        decreases text.len() - start,
    {
        let (first, end, next) = read_content(text, start);
        if end > first {
            return (first, end, next);
        }
        start = next;
    }
    (start, start, start)
}

/// Read the line that starts at `from`, whatever it says: where it starts,
/// where what it says ends, and where the next line starts.
pub fn read_content(text: &[u8], from: usize) -> (bounds: (usize, usize, usize))
    requires
        from < text.len(),
    ensures
        bounds.0 == from,
        from <= bounds.1 <= bounds.2 <= text.len(),
        text@.subrange(from as int, bounds.1 as int) == content_at(text@, from as int),
        bounds.2 == next_line_start(text@, from as int),
        from < bounds.2,
{
    let (first, last, next) = read_line(text, from);
    let found = find_byte(text, COMMENT_BYTE, first);
    let end = if found < last {
        found
    } else {
        last
    };
    proof {
        let line = line_at(text@, from as int);
        lemma_find_in_prefix(text@, COMMENT_BYTE, last as int, first as int);
        lemma_find_in_suffix(
            text@.subrange(0, last as int),
            COMMENT_BYTE,
            first as int,
            first as int,
        );
        assert(text@.subrange(0, last as int).subrange(first as int, last as int) =~= line);
        assert(find_from(line, COMMENT_BYTE, 0) == end - first);
        assert(line.subrange(0, end - first) =~= text@.subrange(first as int, end as int));
    }
    (first, end, next)
}

/// What went wrong in a line of a text file.
#[derive(Copy, Clone, PartialEq, Eq, Debug, Structural)]
pub enum ParseErrorKind {
    /// The line has too few or too many fields.
    FieldCount,
    /// A field that holds a number is empty, holds a byte that is no
    /// hexadecimal digit, or holds too large a number.
    Number,
    /// A line opens a range of code points, and its name lacks the form of
    /// such a line, or the line after it is missing, does not close the
    /// range, or closes it before its start.
    Range,
    /// A case folding has a status other than the four known ones.
    Status,
    /// A special casing has an empty condition, or more than one language
    /// or more than one context.
    Condition,
}

/// A line of a text file that could not be read.
#[derive(Copy, Clone, PartialEq, Eq, Debug, Structural)]
pub struct ParseError {
    /// The position in the text of the first byte of the line.
    pub offset: usize,
    /// What went wrong.
    pub kind: ParseErrorKind,
}

/// Whether `s` ends with `suffix`.
pub open spec fn ends_with(s: Seq<u8>, suffix: Seq<u8>) -> bool {
    s.len() >= suffix.len() && s.subrange(s.len() - suffix.len(), s.len() as int) == suffix
}

/// Whether `a` and `b` hold the same bytes.
pub fn same_bytes(a: &[u8], b: &[u8]) -> (same: bool)
    ensures
        same == (a@ == b@),
{
    if a.len() != b.len() {
        return false;
    }
    let mut i: usize = 0;
    while i < a.len()
        invariant
            i <= a.len(),
            a.len() == b.len(),
            forall|j: int| 0 <= j < i ==> a@[j] == b@[j],
        decreases a.len() - i,
    {
        if a[i] != b[i] {
            return false;
        }
        i += 1;
    }
    proof {
        assert(a@ =~= b@);
    }
    true
}

/// Whether `s` ends with `suffix`.
pub fn has_suffix(s: &[u8], suffix: &[u8]) -> (found: bool)
    ensures
        found == ends_with(s@, suffix@),
{
    if s.len() < suffix.len() {
        return false;
    }
    let skip = s.len() - suffix.len();
    let mut i: usize = 0;
    while i < suffix.len()
        invariant
            i <= suffix.len(),
            skip + suffix.len() == s.len(),
            forall|j: int| 0 <= j < i ==> s@[skip + j] == suffix@[j],
        decreases suffix.len() - i,
    {
        if s[skip + i] != suffix[i] {
            proof {
                assert(s@.subrange(skip as int, s@.len() as int)[i as int] == s@[skip + i]);
            }
            return false;
        }
        i += 1;
    }
    proof {
        assert(s@.subrange(skip as int, s@.len() as int) =~= suffix@);
    }
    true
}

/// The upper-case hexadecimal digit for `d`.
pub open spec fn upper_hex_digit(d: nat) -> u8 {
    if d < 10 {
        (0x30 + d) as u8
    } else {
        (0x41 + d - 10) as u8
    }
}

/// `n` written in upper-case hexadecimal digits, with zeros in front of it
/// where it has fewer than `width` digits.
pub open spec fn upper_hex(n: nat, width: nat) -> Seq<u8>
    decreases n, width,
{
    if n < 16 && width <= 1 {
        seq![upper_hex_digit(n)]
    } else {
        upper_hex(
            n / 16,
            if width > 0 {
                (width - 1) as nat
            } else {
                0
            },
        ).push(upper_hex_digit(n % 16))
    }
}

/// A number that was written in upper-case hexadecimal digits is read back
/// as itself, whatever the width.
pub proof fn lemma_upper_hex_reads_back(n: nat, width: nat)
    ensures
        is_hex(upper_hex(n, width)),
        hex_value(upper_hex(n, width)) == n,
    decreases n, width,
{
    let digit = upper_hex_digit(n % 16);
    assert(hex_digit(digit) == Some((n % 16) as u8));
    if n < 16 && width <= 1 {
        let written = seq![digit];
        assert(written.drop_last() =~= Seq::<u8>::empty());
        assert(hex_value(written.drop_last()) == 0);
    } else {
        let shorter = upper_hex(
            n / 16,
            if width > 0 {
                (width - 1) as nat
            } else {
                0
            },
        );
        lemma_upper_hex_reads_back(
            n / 16,
            if width > 0 {
                (width - 1) as nat
            } else {
                0
            },
        );
        let written = shorter.push(digit);
        assert(written.drop_last() =~= shorter);
        assert(written.last() == digit);
        assert forall|i: int| 0 <= i < written.len() implies hex_digit(
            #[trigger] written[i],
        ) is Some by {
            if i < shorter.len() {
                assert(written[i] == shorter[i]);
            }
        }
    }
}

/// Append to `out` the number `n` in upper-case hexadecimal digits, with
/// zeros in front of it where it has fewer than `width` digits.
pub fn push_upper_hex(out: &mut Vec<u8>, n: u32, width: u8)
    ensures
        final(out)@ == old(out)@ + upper_hex(n as nat, width as nat),
{
    let mut digits: Vec<u8> = Vec::new();
    let mut rest: u32 = n;
    let mut left: u8 = width;
    while !(rest < 16 && left <= 1)
        invariant
            upper_hex(n as nat, width as nat) == upper_hex(rest as nat, left as nat)
                + digits@.reverse(),
        decreases rest, left,
    {
        let d: u8 = (rest % 16) as u8;
        let digit: u8 = if d < 10 {
            0x30 + d
        } else {
            0x41 + d - 10
        };
        let ghost before = digits@;
        digits.push(digit);
        proof {
            let shorter = upper_hex(
                (rest / 16) as nat,
                if left > 0 {
                    (left - 1) as nat
                } else {
                    0
                },
            );
            assert(digit == upper_hex_digit((rest % 16) as nat));
            assert(upper_hex(rest as nat, left as nat) == shorter.push(digit));
            assert(digits@.reverse() =~= seq![digit] + before.reverse());
            assert(shorter.push(digit) + before.reverse() =~= shorter + digits@.reverse());
        }
        rest = rest / 16;
        if left > 0 {
            left -= 1;
        }
    }
    let d: u8 = rest as u8;
    let ghost start = out@;
    out.push(
        if d < 10 {
            0x30 + d
        } else {
            0x41 + d - 10
        },
    );
    let mut i: usize = digits.len();
    while i > 0
        invariant
            i <= digits.len(),
            out@ == start + upper_hex(rest as nat, left as nat) + digits@.reverse().subrange(
                0,
                digits.len() - i,
            ),
        decreases i,
    {
        i -= 1;
        out.push(digits[i]);
        proof {
            let r = digits@.reverse();
            assert(r[digits.len() - 1 - i] == digits@[i as int]);
            assert(r.subrange(0, digits.len() - i) =~= r.subrange(0, digits.len() - 1 - i).push(
                digits@[i as int],
            ));
        }
    }
    proof {
        assert(digits@.reverse().subrange(0, digits.len() as int) =~= digits@.reverse());
        assert(start + upper_hex(rest as nat, left as nat) + digits@.reverse() =~= start + (
        upper_hex(rest as nat, left as nat) + digits@.reverse()));
    }
}

/// Append the bytes of `more` to `out`.
pub fn push_bytes(out: &mut Vec<u8>, more: &[u8])
    ensures
        final(out)@ == old(out)@ + more@,
{
    let ghost start = out@;
    let mut i: usize = 0;
    while i < more.len()
        invariant
            i <= more.len(),
            out@ == start + more@.subrange(0, i as int),
        decreases more.len() - i,
    {
        out.push(more[i]);
        proof {
            assert(more@.subrange(0, i + 1) =~= more@.subrange(0, i as int).push(more@[i as int]));
        }
        i += 1;
    }
    proof {
        assert(more@.subrange(0, more@.len() as int) =~= more@);
    }
}

/// Whether `s` starts with `prefix`.
pub open spec fn starts_with(s: Seq<u8>, prefix: Seq<u8>) -> bool {
    s.len() >= prefix.len() && s.subrange(0, prefix.len() as int) == prefix
}

/// Whether `s` starts with `prefix`.
pub fn has_prefix(s: &[u8], prefix: &[u8]) -> (found: bool)
    ensures
        found == starts_with(s@, prefix@),
{
    if s.len() < prefix.len() {
        return false;
    }
    let mut i: usize = 0;
    while i < prefix.len()
        invariant
            i <= prefix.len() <= s.len(),
            forall|j: int| 0 <= j < i ==> s@[j] == prefix@[j],
        decreases prefix.len() - i,
    {
        if s[i] != prefix[i] {
            proof {
                assert(s@.subrange(0, prefix@.len() as int)[i as int] == s@[i as int]);
            }
            return false;
        }
        i += 1;
    }
    proof {
        assert(s@.subrange(0, prefix@.len() as int) =~= prefix@);
    }
    true
}

/// The items of a list within a field, which spaces separate. A field that
/// holds white space only holds no item.
pub open spec fn tokens(field: Seq<u8>) -> Seq<Seq<u8>> {
    if trim(field).len() == 0 {
        Seq::empty()
    } else {
        split(trim(field), SPACE_BYTE)
    }
}

/// The numbers of a list of hexadecimal numbers, each of at most `max`, or
/// `None` where an item of the list is no such number.
pub open spec fn hex_list(field: Seq<u8>, max: nat) -> Option<Seq<u32>> {
    let items = tokens(field);
    if forall|i: int| 0 <= i < items.len() ==> (#[trigger] hex_number(items[i], max)) is Some {
        Some(Seq::new(items.len(), |i: int| hex_number(items[i], max)->0))
    } else {
        None
    }
}

/// The items of a list within a field, each copied out.
pub fn split_tokens(field: &Vec<u8>) -> (items: Vec<Vec<u8>>)
    ensures
        views(items@) == tokens(field@),
{
    let inner = trimmed(field);
    if inner.len() == 0 {
        proof {
            assert(views(Seq::<Vec<u8>>::empty()) =~= Seq::<Seq<u8>>::empty());
        }
        return Vec::new();
    }
    proof {
        assert(inner@.subrange(0, inner@.len() as int) =~= inner@);
    }
    split_fields(inner.as_slice(), 0, inner.len(), SPACE_BYTE)
}

/// Read a list of hexadecimal numbers, each of at most `max`.
pub fn parse_hex_list(field: &Vec<u8>, max: u32) -> (numbers: Option<Vec<u32>>)
    ensures
        match numbers {
            Some(numbers) => hex_list(field@, max as nat) == Some(numbers@),
            None => hex_list(field@, max as nat) is None,
        },
{
    let items = split_tokens(field);
    let mut numbers: Vec<u32> = Vec::new();
    let mut i: usize = 0;
    while i < items.len()
        invariant
            i <= items.len(),
            views(items@) == tokens(field@),
            numbers@.len() == i,
            forall|j: int|
                0 <= j < i ==> (#[trigger] hex_number(tokens(field@)[j], max as nat)) == Some(
                    numbers@[j],
                ),
        decreases items.len() - i,
    {
        proof {
            assert(views(items@)[i as int] == items@[i as int]@);
        }
        match parse_hex(&items[i], max) {
            None => {
                return None;
            },
            Some(number) => {
                numbers.push(number);
            },
        }
        i += 1;
    }
    proof {
        assert(views(items@).len() == items@.len());
        assert(numbers@ =~= Seq::new(
            tokens(field@).len(),
            |i: int| hex_number(tokens(field@)[i], max as nat)->0,
        ));
    }
    Some(numbers)
}

} // verus!
