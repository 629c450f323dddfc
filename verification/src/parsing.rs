//! Text-format chart parsing: decimal fields, hit-object lines and the
//! column-count header.
//!
//! All scanning works on the UTF-8 bytes of the line. The delimiters and
//! digits involved are ASCII, which UTF-8 never reuses inside a multi-byte
//! character, so byte positions and character positions agree wherever a
//! field is well formed.

use vstd::prelude::*;

use vstd::string::StringExecFns;
use vstd::string::StringSliceAdditionalSpecFns;

use crate::errors::{ParseError, StarRatingError};

verus! {

/// `b` is an ASCII decimal digit.
pub open spec fn is_digit(b: u8) -> bool {
    0x30 <= b <= 0x39
}

/// Every byte of `bs[from..to)` is a decimal digit.
pub open spec fn all_digits(bs: Seq<u8>, from: int, to: int) -> bool {
    forall|i: int| from <= i < to ==> is_digit(#[trigger] bs[i])
}

/// Value of the decimal digits `bs[from..to)`.
pub open spec fn digits_value(bs: Seq<u8>, from: int, to: int) -> int
    decreases to - from,
{
    if to <= from {
        0
    } else {
        digits_value(bs, from, to - 1) * 10 + (bs[to - 1] - 0x30)
    }
}

/// First index of `b` in `bs` at or after `from`; the length when absent.
pub open spec fn find_byte(bs: Seq<u8>, from: int, b: u8) -> int
    decreases bs.len() - from,
{
    if from < 0 || from >= bs.len() {
        bs.len() as int
    } else if bs[from] == b {
        from
    } else {
        find_byte(bs, from + 1, b)
    }
}

/// Basic facts about `find_byte`: it stays within `[from, len]`, lands on
/// `b` when in range, and skips no earlier occurrence.
pub proof fn lemma_find_byte_props(bs: Seq<u8>, from: int, b: u8)
    requires
        0 <= from <= bs.len(),
    ensures
        from <= find_byte(bs, from, b) <= bs.len(),
        find_byte(bs, from, b) < bs.len() ==> bs[find_byte(bs, from, b)] == b,
        forall|i: int| from <= i < find_byte(bs, from, b) ==> bs[i] != b,
    decreases bs.len() - from,
{
    if from < bs.len() && bs[from] != b {
        lemma_find_byte_props(bs, from + 1, b);
    }
}

/// When everything from `from` to `d` differs from `b`, and `d` is the end
/// or holds `b`, the first occurrence of `b` at or after `from` is `d`.
pub proof fn lemma_find_byte_at(bs: Seq<u8>, from: int, b: u8, d: int)
    requires
        0 <= from <= d <= bs.len(),
        forall|i: int| from <= i < d ==> bs[i] != b,
        d < bs.len() ==> bs[d] == b,
    ensures
        find_byte(bs, from, b) == d,
    decreases d - from,
{
    if from < d {
        lemma_find_byte_at(bs, from + 1, b, d);
    }
}

/// Length of the sign prefix of a decimal field: 1 for a leading `+` or
/// `-`, else 0.
pub open spec fn sign_len(bs: Seq<u8>) -> int {
    if bs.len() > 0 && (bs[0] == 0x2b || bs[0] == 0x2d) {
        1
    } else {
        0
    }
}

/// The field is a plain decimal number: an optional sign, digits, and an
/// optional dot followed by more digits, with at least one digit in all.
pub open spec fn is_plain_decimal(bs: Seq<u8>) -> bool {
    let s0 = sign_len(bs);
    let dot = find_byte(bs, s0, 0x2e);
    &&& all_digits(bs, s0, dot)
    &&& (dot < bs.len() ==> all_digits(bs, dot + 1, bs.len() as int))
    &&& (dot - s0) + (if dot < bs.len() { bs.len() - dot - 1 } else { 0int }) >= 1
}

/// The signed integer part of a plain decimal field (the fraction is
/// truncated toward zero).
pub open spec fn decimal_int_part(bs: Seq<u8>) -> int {
    let s0 = sign_len(bs);
    let dot = find_byte(bs, s0, 0x2e);
    let mag = digits_value(bs, s0, dot);
    if bs.len() > 0 && bs[0] == 0x2d {
        -mag
    } else {
        mag
    }
}

/// What a numeric field evaluates to: its integer part clamped to the
/// `i32` range, or 0 when it is not a plain decimal number.
pub open spec fn numeric_field_value(bs: Seq<u8>) -> int {
    if is_plain_decimal(bs) {
        if decimal_int_part(bs) > i32::MAX {
            i32::MAX as int
        } else if decimal_int_part(bs) < i32::MIN {
            i32::MIN as int
        } else {
            decimal_int_part(bs)
        }
    } else {
        0
    }
}

proof fn lemma_digits_value_nonneg(bs: Seq<u8>, from: int, to: int)
    ensures
        digits_value(bs, from, to) >= 0 || !all_digits(bs, from, to),
    decreases to - from,
{
    if to > from {
        lemma_digits_value_nonneg(bs, from, to - 1);
        if all_digits(bs, from, to) {
            assert(is_digit(bs[to - 1]));
            assert(digits_value(bs, from, to - 1) * 10 >= 0) by (nonlinear_arith)
                requires
                    digits_value(bs, from, to - 1) >= 0,
            ;
        }
    }
}

/// Parses the decimal field `bs[start..end)` as the chart format does:
/// the integer part truncated toward zero and clamped to `i32`, or 0 when
/// the field is not a plain decimal number.
pub fn parse_decimal_range(bs: &[u8], start: usize, end: usize) -> (r: i32)
    requires
        start <= end <= bs@.len(),
    ensures
        r as int == numeric_field_value(bs@.subrange(start as int, end as int)),
{
    let ghost field = bs@.subrange(start as int, end as int);
    let ghost flen = field.len() as int;
    // Sign.
    let mut neg = false;
    let mut idx = start;
    if idx < end && (bs[idx] == 0x2b || bs[idx] == 0x2d) {
        neg = bs[idx] == 0x2d;
        idx = idx + 1;
    }
    let ghost s0 = sign_len(field);
    assert(idx - start == s0);
    assert(neg == (field.len() > 0 && field[0] == 0x2d));
    // Integer part digits, with the magnitude capped just above the i32
    // range.
    let mut mag: u64 = 0;
    let mut digits: usize = 0;
    let mut i = idx;
    while i < end && bs[i] >= 0x30 && bs[i] <= 0x39
        invariant
            start <= idx <= i <= end <= bs@.len(),
            field == bs@.subrange(start as int, end as int),
            idx - start == s0,
            digits == i - idx,
            all_digits(field, s0, i - start),
            mag <= 0x8000_0001,
            ({
                let true_val = digits_value(field, s0, i - start);
                if true_val <= 0x8000_0000 {
                    mag == true_val
                } else {
                    mag == 0x8000_0001
                }
            }),
        decreases end - i,
    {
        let ghost prev_true = digits_value(field, s0, i - start);
        proof {
            lemma_digits_value_nonneg(field, s0, i - start);
        }
        let d = bs[i] - 0x30;
        mag = mag * 10 + (d as u64);
        digits = digits + 1;
        if mag > 0x8000_0000 {
            mag = 0x8000_0001;
        }
        assert(field[i - start] == bs@[i as int]);
        proof {
            let new_true = digits_value(field, s0, i + 1 - start);
            assert(new_true == prev_true * 10 + (field[i - start] - 0x30));
            if prev_true > 0x8000_0000 {
                assert(new_true > 0x8000_0000) by (nonlinear_arith)
                    requires
                        new_true == prev_true * 10 + (field[i - start] - 0x30),
                        prev_true > 0x8000_0000,
                        field[i - start] >= 0x30,
                ;
            }
        }
        i = i + 1;
    }
    let int_end = i;
    let ghost ide = int_end - start;
    // After the loop: digits run from the sign to `ide`, and `ide` is the
    // end of the field or a non-digit.
    assert(ide == flen || !is_digit(field[ide]));
    // Optional dot and fraction digits (the fraction never changes the
    // truncated value, only whether the field is well formed).
    let mut valid = true;
    let mut frac_digits: usize = 0;
    if i < end {
        if bs[i] == 0x2e {
            let mut j = i + 1;
            while j < end
                invariant
                    i + 1 <= j <= end <= bs@.len(),
                    start <= idx <= i < end,
                    field == bs@.subrange(start as int, end as int),
                    flen == field.len(),
                    valid ==> all_digits(field, i + 1 - start, j - start),
                    !valid ==> !all_digits(field, i + 1 - start, flen),
                    frac_digits == j - (i + 1),
                decreases end - j,
            {
                assert(field[j - start] == bs@[j as int]);
                if !(bs[j] >= 0x30 && bs[j] <= 0x39) {
                    assert(!all_digits(field, i + 1 - start, flen)) by {
                        assert(i + 1 - start <= j - start < flen);
                        assert(!is_digit(field[j - start]));
                    }
                    valid = false;
                }
                frac_digits = frac_digits + 1;
                j = j + 1;
            }
        } else {
            valid = false;
        }
    }
    proof {
        lemma_digits_value_nonneg(field, s0, ide);
    }
    let ghost true_mag = digits_value(field, s0, ide);
    if int_end < end && bs[int_end] == 0x2e {
        // The dot ends the integer part.
        proof {
            lemma_find_byte_at(field, s0, 0x2e, ide);
        }
        if valid && (digits > 0 || frac_digits > 0) {
            assert(is_plain_decimal(field));
        } else {
            assert(!is_plain_decimal(field));
            return 0;
        }
    } else if int_end == end {
        // The field ends with its integer part; no dot follows.
        proof {
            lemma_find_byte_at(field, s0, 0x2e, ide);
        }
        if digits > 0 {
            assert(is_plain_decimal(field));
        } else {
            assert(!is_plain_decimal(field));
            return 0;
        }
    } else {
        // A byte that is neither digit nor dot stops the field.
        proof {
            lemma_find_byte_props(field, s0, 0x2e);
            let dot = find_byte(field, s0, 0x2e);
            if is_plain_decimal(field) {
                if dot < ide {
                    assert(is_digit(field[dot]));
                } else {
                    assert(field[ide] != 0x2e);
                    assert(dot != ide);
                    assert(is_digit(field[ide]));
                }
                assert(false);
            }
        }
        return 0;
    }
    // The field is a plain decimal number; clamp its signed magnitude.
    assert(decimal_int_part(field) == if neg { -true_mag } else { true_mag });
    if neg {
        if mag >= 0x8000_0000 {
            assert(true_mag >= 0x8000_0000);
            i32::MIN
        } else {
            assert(true_mag == mag);
            -(mag as i32)
        }
    } else {
        if mag >= 0x8000_0000 {
            assert(true_mag >= 0x8000_0000);
            i32::MAX
        } else {
            assert(true_mag == mag);
            mag as i32
        }
    }
}

/// Parses a numeric field as the chart format does: the integer part of a
/// plain decimal number, clamped to `i32`; 0 for anything else.
pub fn string_to_int(s: &str) -> (r: i32)
    ensures
        r as int == numeric_field_value(s.spec_bytes()),
{
    let bs = s.as_bytes();
    let n = bs.len();
    proof {
        assert(bs@.subrange(0, n as int) == bs@);
    }
    parse_decimal_range(bs, 0, n)
}

/// First index of `b` in `bs` at or after `from`; the length when absent.
pub fn find_byte_from(bs: &[u8], from: usize, b: u8) -> (r: usize)
    requires
        from <= bs@.len(),
    ensures
        r == find_byte(bs@, from as int, b),
        from <= r <= bs@.len(),
{
    proof {
        lemma_find_byte_props(bs@, from as int, b);
    }
    let n = bs.len();
    let mut i = from;
    while i < n
        invariant
            from <= i <= n,
            n == bs@.len(),
            find_byte(bs@, from as int, b) == find_byte(bs@, i as int, b),
            forall|j: int| from <= j < i ==> bs@[j] != b,
        decreases n - i,
    {
        if bs[i] == b {
            return i;
        }
        i = i + 1;
    }
    i
}

/// `bs` holds `needle` as a contiguous run starting at `i`.
pub open spec fn has_substr_at(hay: Seq<u8>, needle: Seq<u8>, i: int) -> bool {
    0 <= i && i + needle.len() <= hay.len() && hay.subrange(i, i + needle.len()) == needle
}

/// `bs` holds `needle` somewhere.
pub open spec fn contains_substr(hay: Seq<u8>, needle: Seq<u8>) -> bool {
    exists|i: int| has_substr_at(hay, needle, i)
}

/// Whether `hay` holds `needle` as a contiguous run of bytes.
pub fn contains_bytes(hay: &[u8], needle: &[u8]) -> (r: bool)
    ensures
        r == contains_substr(hay@, needle@),
{
    let n = hay.len();
    let m = needle.len();
    if m > n {
        proof {
            assert forall|i: int| !has_substr_at(hay@, needle@, i) by {}
        }
        return false;
    }
    if m == 0 {
        proof {
            assert(hay@.subrange(0, 0) =~= needle@);
            assert(has_substr_at(hay@, needle@, 0));
        }
        return true;
    }
    let mut i: usize = 0;
    while i <= n - m
        invariant
            1 <= m <= n,
            n == hay@.len(),
            m == needle@.len(),
            i <= n - m + 1,
            forall|p: int| 0 <= p < i ==> !has_substr_at(hay@, needle@, p),
        decreases n - m + 1 - i,
    {
        let mut j: usize = 0;
        let mut matched = true;
        while j < m
            invariant
                j <= m,
                i + m <= n,
                n == hay@.len(),
                m == needle@.len(),
                matched ==> forall|q: int| 0 <= q < j ==> hay@[i + q] == needle@[q],
                !matched ==> !has_substr_at(hay@, needle@, i as int),
            decreases m - j,
        {
            if hay[i + j] != needle[j] {
                proof {
                    if has_substr_at(hay@, needle@, i as int) {
                        assert(hay@.subrange(i as int, i + m)[j as int] == needle@[j as int]);
                    }
                }
                matched = false;
            }
            j = j + 1;
        }
        if matched {
            proof {
                assert(hay@.subrange(i as int, i + m) =~= needle@);
                assert(has_substr_at(hay@, needle@, i as int));
            }
            return true;
        }
        i = i + 1;
    }
    proof {
        assert forall|p: int| !has_substr_at(hay@, needle@, p) by {
            if 0 <= p <= n - m {
            }
        }
    }
    false
}

/// Start of the `k`-th comma-separated field of a line (one past the
/// `k`-th comma; one past the length when there are fewer commas).
pub open spec fn field_start(bs: Seq<u8>, k: int) -> int
    decreases k,
{
    if k <= 0 {
        0
    } else {
        find_byte(bs, field_start(bs, k - 1), 0x2c) + 1
    }
}

/// End of the `k`-th comma-separated field: the next comma, or the end of
/// the line.
pub open spec fn field_end(bs: Seq<u8>, k: int) -> int {
    find_byte(bs, field_start(bs, k), 0x2c)
}

/// The line has more than `k` comma-separated fields (at least `k`
/// commas).
pub open spec fn has_field(bs: Seq<u8>, k: int) -> bool {
    field_start(bs, k) <= bs.len()
}

/// Truncating division for a positive divisor, as the `/` operator of the
/// executable code computes it.
pub open spec fn div_trunc(a: int, b: int) -> int {
    if a >= 0 {
        a / b
    } else {
        -((-a) / b)
    }
}

/// The column a hit object lands in: its x position divided by the column
/// width `512 / column_count`, truncated.
pub open spec fn column_of_line(bs: Seq<u8>, column_count: int) -> int {
    div_trunc(numeric_field_value(bs.subrange(field_start(bs, 0), field_end(bs, 0))), 512int / column_count)
}

/// The hit time field of a hit-object line.
pub open spec fn start_of_line(bs: Seq<u8>) -> int {
    numeric_field_value(bs.subrange(field_start(bs, 2), field_end(bs, 2)))
}

/// The note-type field of a hit-object line.
pub open spec fn type_of_line(bs: Seq<u8>) -> int {
    numeric_field_value(bs.subrange(field_start(bs, 3), field_end(bs, 3)))
}

/// The end-time field of a hit-object line: the sixth field up to its
/// first colon.
pub open spec fn end_of_line(bs: Seq<u8>) -> int {
    let s5 = field_start(bs, 5);
    let e5 = field_end(bs, 5);
    let colon = find_byte(bs, s5, 0x3a);
    let chunk_end = if colon < e5 { colon } else { e5 };
    numeric_field_value(bs.subrange(s5, chunk_end))
}

/// Parses one hit-object line of the chart format and pushes its column,
/// hit time, note type and end time into the four buffers; a line with
/// fewer than six comma-separated fields is rejected and the buffers are
/// left unchanged.
pub fn parse_hit_object_line(
    object_line: &str,
    column_count: i32,
    columns: &mut Vec<i32>,
    note_starts: &mut Vec<i32>,
    note_ends: &mut Vec<i32>,
    note_types: &mut Vec<i32>,
) -> (r: Result<(), StarRatingError>)
    requires
        1 <= column_count <= 512,
    ensures
        r is Ok <==> has_field(object_line.spec_bytes(), 5),
        ({
            let bs = object_line.spec_bytes();
            if has_field(bs, 5) {
                &&& final(columns)@ == old(columns)@.push((column_of_line(bs, column_count as int)) as i32)
                &&& final(note_starts)@ == old(note_starts)@.push(start_of_line(bs) as i32)
                &&& final(note_types)@ == old(note_types)@.push(type_of_line(bs) as i32)
                &&& final(note_ends)@ == old(note_ends)@.push(end_of_line(bs) as i32)
            } else {
                &&& final(columns)@ == old(columns)@
                &&& final(note_starts)@ == old(note_starts)@
                &&& final(note_types)@ == old(note_types)@
                &&& final(note_ends)@ == old(note_ends)@
                &&& r matches Err(e) && e is ParseError
            }
        }),
{
    let bs = object_line.as_bytes();
    let n = bs.len();
    let ghost bv = object_line.spec_bytes();
    assert(bs@ == bv);
    // Locate the first five commas; each field start is one past the
    // previous comma.
    assert(field_start(bv, 0) == 0);
    let e0 = find_byte_from(bs, 0, 0x2c);
    assert(field_end(bv, 0) == e0);
    if e0 == n {
        proof { lemma_field_start_grows(bv, 1, 5); }
        return Err(insufficient_line_error(object_line));
    }
    let s1 = e0 + 1;
    assert(field_start(bv, 1) == s1);
    let e1 = find_byte_from(bs, s1, 0x2c);
    if e1 == n {
        proof { lemma_field_start_grows(bv, 2, 5); }
        return Err(insufficient_line_error(object_line));
    }
    let s2 = e1 + 1;
    assert(field_start(bv, 2) == s2);
    let e2 = find_byte_from(bs, s2, 0x2c);
    assert(field_end(bv, 2) == e2);
    if e2 == n {
        proof { lemma_field_start_grows(bv, 3, 5); }
        return Err(insufficient_line_error(object_line));
    }
    let s3 = e2 + 1;
    assert(field_start(bv, 3) == s3);
    let e3 = find_byte_from(bs, s3, 0x2c);
    assert(field_end(bv, 3) == e3);
    if e3 == n {
        proof { lemma_field_start_grows(bv, 4, 5); }
        return Err(insufficient_line_error(object_line));
    }
    let s4 = e3 + 1;
    assert(field_start(bv, 4) == s4);
    let e4 = find_byte_from(bs, s4, 0x2c);
    if e4 == n {
        proof { lemma_field_start_grows(bv, 5, 5); }
        return Err(insufficient_line_error(object_line));
    }
    let s5 = e4 + 1;
    assert(field_start(bv, 5) == s5 && s5 <= n);
    assert(has_field(bv, 5));
    let e5 = find_byte_from(bs, s5, 0x2c);
    assert(field_end(bv, 5) == e5);

    // Field 0: x position, divided by the column width.
    let x_pos = parse_decimal_range(bs, 0, e0);
    proof {
        assert(1 <= 512int / (column_count as int) <= 512) by (nonlinear_arith)
            requires
                1 <= column_count <= 512,
        ;
    }
    let column_width = 512 / column_count;
    assert(1 <= column_width <= 512);
    let column = x_pos / column_width;
    assert(column as int == column_of_line(bv, column_count as int));
    columns.push(column);
    // Field 2: hit time.
    let note_start = parse_decimal_range(bs, s2, e2);
    note_starts.push(note_start);
    // Field 3: note type.
    let note_type = parse_decimal_range(bs, s3, e3);
    note_types.push(note_type);
    // Field 5 up to its first colon: end time.
    let colon = find_byte_from(bs, s5, 0x3a);
    let chunk_end = if colon < e5 { colon } else { e5 };
    proof {
        lemma_find_byte_props(bv, s5 as int, 0x2c);
        lemma_find_byte_props(bv, s5 as int, 0x3a);
    }
    let note_end = parse_decimal_range(bs, s5, chunk_end);
    note_ends.push(note_end);
    Ok(())
}

/// The rejection raised for a hit-object line with too few fields.
fn insufficient_line_error(object_line: &str) -> (r: StarRatingError)
    ensures
        r is ParseError,
{
    let mut msg = String::from_str("Invalid hit object line: ");
    msg.append(object_line);
    StarRatingError::from_parse(&ParseError::InsufficientData(msg))
}

/// Field starts only grow with the field index.
proof fn lemma_field_start_grows(bs: Seq<u8>, k: int, m: int)
    requires
        0 <= k <= m,
        field_start(bs, k) > bs.len(),
    ensures
        field_start(bs, m) > bs.len(),
    decreases m - k,
{
    if k < m {
        assert(find_byte(bs, field_start(bs, k), 0x2c) == bs.len());
        lemma_field_start_grows(bs, k + 1, m);
    }
}

/// An ASCII whitespace byte.
pub open spec fn ascii_whitespace(b: u8) -> bool {
    b == 0x20 || (0x09 <= b <= 0x0d)
}

/// Length of `bs` once trailing ASCII whitespace is removed.
pub open spec fn trim_end_idx(bs: Seq<u8>) -> int
    decreases bs.len(),
{
    if bs.len() == 0 {
        0
    } else if ascii_whitespace(bs[bs.len() - 1]) {
        trim_end_idx(bs.drop_last())
    } else {
        bs.len() as int
    }
}

/// The tag that marks the column-count line of a chart file; the bytes
/// spell `CircleSize:`.
pub open spec fn circle_size_tag() -> Seq<u8> {
    seq![0x43u8, 0x69, 0x72, 0x63, 0x6c, 0x65, 0x53, 0x69, 0x7a, 0x65, 0x3a]
}

/// The column count read from a line: -1 when the line does not carry the
/// column-count tag; otherwise the last non-whitespace character, where a
/// trailing `0` (or nothing) means 10 columns and a non-digit means 0.
pub open spec fn column_count_value(bs: Seq<u8>) -> int {
    if !contains_substr(bs, circle_size_tag()) {
        -1
    } else {
        let e = trim_end_idx(bs);
        let last = if e == 0 { 0x30u8 } else { bs[e - 1] };
        if last == 0x30 {
            10
        } else if is_digit(last) {
            last - 0x30
        } else {
            0
        }
    }
}

/// Reads the column count from a line of the chart file.
pub fn read_column_count(line: &str) -> (r: i32)
    ensures
        r as int == column_count_value(line.spec_bytes()),
{
    let bs = line.as_bytes();
    let mut needle: Vec<u8> = Vec::new();
    needle.push(0x43);
    needle.push(0x69);
    needle.push(0x72);
    needle.push(0x63);
    needle.push(0x6c);
    needle.push(0x65);
    needle.push(0x53);
    needle.push(0x69);
    needle.push(0x7a);
    needle.push(0x65);
    needle.push(0x3a);
    assert(needle@ =~= circle_size_tag());
    if !contains_bytes(bs, needle.as_slice()) {
        return -1;
    }
    // Strip trailing whitespace.
    let n = bs.len();
    let mut e = n;
    proof {
        assert(bs@.subrange(0, n as int) =~= bs@);
    }
    while e > 0 && (bs[e - 1] == 0x20 || (0x09 <= bs[e - 1] && bs[e - 1] <= 0x0d))
        invariant
            e <= n,
            n == bs@.len(),
            trim_end_idx(bs@) == trim_end_idx(bs@.subrange(0, e as int)),
        decreases e,
    {
        proof {
            assert(bs@.subrange(0, e as int).drop_last() =~= bs@.subrange(0, e - 1));
            assert(ascii_whitespace(bs@.subrange(0, e as int)[e - 1]));
        }
        e = e - 1;
    }
    proof {
        if e > 0 {
            assert(!ascii_whitespace(bs@.subrange(0, e as int)[e - 1]));
        }
        assert(trim_end_idx(bs@.subrange(0, e as int)) == e);
    }
    let last: u8 = if e == 0 { 0x30 } else { bs[e - 1] };
    if last == 0x30 {
        10
    } else if 0x30 <= last && last <= 0x39 {
        (last - 0x30) as i32
    } else {
        0
    }
}

/// Metadata lines carry nothing the rating needs; reading one is
/// deliberately a no-op kept as the seam where metadata handling would
/// go.
pub fn read_metadata(line: &str) {
    let _ = line;
}

} // verus!
