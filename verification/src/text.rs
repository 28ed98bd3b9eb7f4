//! Character-level building blocks of the parsers and of the store: fields
//! between separators, lines, decimal and hexadecimal numbers, trimming.
//!
//! Every text is handled as its sequence of characters.  The spec functions
//! say what a text means; the executable functions compute it on `Vec<char>`.

use vstd::prelude::*;

verus! {

/// `String::push` appends one character at the end of the string and leaves
/// what was there before as it was.
pub assume_specification[ String::push ](s: &mut String, c: char)
    ensures
        final(s)@ == old(s)@.push(c),
;

/// The characters of `s`, in order.
pub fn to_chars(s: &str) -> (chars: Vec<char>)
    ensures
        chars@ == s@,
{
    let mut chars: Vec<char> = Vec::new();
    for c in it: s.chars()
        invariant
            chars@ == it.seq().take(it.index() as int),
            it.seq() == s@,
    {
        chars.push(c);
    }
    chars
}

/// The string made of the characters `chars`.
pub fn to_text(chars: &Vec<char>) -> (s: String)
    ensures
        s@ == chars@,
{
    let mut s = String::new();
    let mut i: usize = 0;
    while i < chars.len()
        invariant
            i <= chars@.len(),
            s@ == chars@.take(i as int),
        decreases chars@.len() - i,
    {
        s.push(chars[i]);
        i += 1;
    }
    s
}

/// The character sequences of a list of character vectors.
pub open spec fn views(fields: Seq<Vec<char>>) -> Seq<Seq<char>> {
    Seq::new(fields.len(), |i: int| fields[i]@)
}

/// The character sequences of a list of strings.
pub open spec fn texts(entries: Seq<String>) -> Seq<Seq<char>> {
    Seq::new(entries.len(), |i: int| entries[i]@)
}

/// The views of a list with one more vector are the views of the list with
/// one more view.
pub proof fn lemma_views_push(fields: Seq<Vec<char>>, field: Vec<char>)
    ensures
        views(fields.push(field)) == views(fields).push(field@),
{
    assert(views(fields.push(field)) =~= views(fields).push(field@));
}

/// Appends the characters of `part` to `out`.
pub fn push_all(out: &mut Vec<char>, part: &Vec<char>)
    ensures
        final(out)@ == old(out)@ + part@,
{
    let mut i: usize = 0;
    while i < part.len()
        invariant
            i <= part@.len(),
            out@ == old(out)@ + part@.take(i as int),
        decreases part@.len() - i,
    {
        out.push(part[i]);
        i += 1;
    }
}

/// The characters of `chars` from position `from` up to, but without,
/// position `to`.
pub fn copy_range(chars: &Vec<char>, from: usize, to: usize) -> (part: Vec<char>)
    requires
        from <= to <= chars@.len(),
    ensures
        part@ == chars@.subrange(from as int, to as int),
{
    let mut part: Vec<char> = Vec::new();
    let mut i: usize = from;
    while i < to
        invariant
            from <= i <= to <= chars@.len(),
            part@ == chars@.subrange(from as int, i as int),
        decreases to - i,
    {
        part.push(chars[i]);
        i += 1;
    }
    part
}

/// Whether two character vectors hold the same text.
pub fn same_text(a: &Vec<char>, b: &Vec<char>) -> (same: bool)
    ensures
        same == (a@ == b@),
{
    if a.len() != b.len() {
        return false;
    }
    let mut i: usize = 0;
    while i < a.len()
        invariant
            i <= a@.len(),
            a@.len() == b@.len(),
            a@.take(i as int) == b@.take(i as int),
        decreases a@.len() - i,
    {
        if a[i] != b[i] {
            return false;
        }
        assert(a@.take(i + 1) == a@.take(i as int).push(a@[i as int]));
        assert(b@.take(i + 1) == b@.take(i as int).push(b@[i as int]));
        i += 1;
    }
    assert(a@.take(a@.len() as int) == a@);
    assert(b@.take(b@.len() as int) == b@);
    true
}

// ---------------------------------------------------------------------------
// Fields between separators
// ---------------------------------------------------------------------------

/// The position of the first `c` in `s`, or the length of `s` where `s`
/// holds no `c`.
pub open spec fn first_index_of(s: Seq<char>, c: char) -> int
    decreases s.len(),
{
    if s.len() == 0 || s[0] == c {
        0
    } else {
        1 + first_index_of(s.drop_first(), c)
    }
}

/// `first_index_of` lies within the text, nothing before it is `c`, and the
/// character at it, if any, is `c`.
pub proof fn lemma_first_index_of(s: Seq<char>, c: char)
    ensures
        0 <= first_index_of(s, c) <= s.len(),
        forall|j: int| 0 <= j < first_index_of(s, c) ==> s[j] != c,
        first_index_of(s, c) < s.len() ==> s[first_index_of(s, c)] == c,
    decreases s.len(),
{
    if s.len() == 0 || s[0] == c {
    } else {
        let rest = s.drop_first();
        lemma_first_index_of(rest, c);
        assert forall|j: int| 0 <= j < first_index_of(s, c) implies s[j] != c by {
            if j > 0 {
                assert(s[j] == rest[j - 1]);
            }
        }
        if first_index_of(s, c) < s.len() {
            assert(s[first_index_of(s, c)] == rest[first_index_of(rest, c)]);
        }
    }
}

/// A position with no `c` before it, which holds `c` or is the end of the
/// text, is `first_index_of`.
pub proof fn lemma_first_index_is(s: Seq<char>, c: char, i: int)
    requires
        0 <= i <= s.len(),
        forall|j: int| 0 <= j < i ==> s[j] != c,
        i < s.len() ==> s[i] == c,
    ensures
        first_index_of(s, c) == i,
    decreases s.len(),
{
    if s.len() == 0 || s[0] == c {
    } else {
        let rest = s.drop_first();
        assert forall|j: int| 0 <= j < i - 1 implies rest[j] != c by {
            assert(rest[j] == s[j + 1]);
        }
        lemma_first_index_is(rest, c, i - 1);
    }
}

/// The fields of `s`: the pieces between the occurrences of `sep`, in
/// order.  A text with n separators has n + 1 fields, some of which may be
/// empty; the empty text has one empty field.
pub open spec fn fields_of(s: Seq<char>, sep: char) -> Seq<Seq<char>>
    decreases s.len(),
{
    let i = first_index_of(s, sep);
    if 0 <= i < s.len() {
        seq![s.take(i)] + fields_of(s.skip(i + 1), sep)
    } else {
        seq![s]
    }
}

/// The fields joined again, with `sep` between neighbours.
pub open spec fn joined(fields: Seq<Seq<char>>, sep: char) -> Seq<char>
    decreases fields.len(),
{
    if fields.len() == 0 {
        Seq::empty()
    } else if fields.len() == 1 {
        fields[0]
    } else {
        joined(fields.drop_last(), sep) + seq![sep] + fields.last()
    }
}

/// Whether `c` occurs nowhere in `s`.
pub open spec fn free_of(s: Seq<char>, c: char) -> bool {
    forall|i: int| 0 <= i < s.len() ==> s[i] != c
}

/// A text has at least one field, and no field holds the separator.
pub proof fn lemma_fields_of(s: Seq<char>, sep: char)
    ensures
        fields_of(s, sep).len() >= 1,
        forall|k: int| 0 <= k < fields_of(s, sep).len() ==> free_of(#[trigger] fields_of(s, sep)[k], sep),
    decreases s.len(),
{
    lemma_first_index_of(s, sep);
    let i = first_index_of(s, sep);
    if 0 <= i < s.len() {
        let rest = s.skip(i + 1);
        lemma_fields_of(rest, sep);
        assert forall|k: int| 0 <= k < fields_of(s, sep).len() implies free_of(
            #[trigger] fields_of(s, sep)[k],
            sep,
        ) by {
            if k == 0 {
                assert(fields_of(s, sep)[0] == s.take(i));
            } else {
                assert(fields_of(s, sep)[k] == fields_of(rest, sep)[k - 1]);
            }
        }
    } else {
        assert(fields_of(s, sep)[0] == s);
    }
}

/// A text without the separator is its own single field.
pub proof fn lemma_fields_of_single(s: Seq<char>, sep: char)
    requires
        free_of(s, sep),
    ensures
        fields_of(s, sep) == seq![s],
{
    lemma_first_index_is(s, sep, s.len() as int);
}

/// The fields of `head`, a separator and `tail`, where `head` holds no
/// separator, are `head` followed by the fields of `tail`.
pub proof fn lemma_fields_of_prepend(head: Seq<char>, sep: char, tail: Seq<char>)
    requires
        free_of(head, sep),
    ensures
        fields_of(head + seq![sep] + tail, sep) == seq![head] + fields_of(tail, sep),
{
    let s = head + seq![sep] + tail;
    lemma_first_index_is(s, sep, head.len() as int);
    assert(s.take(head.len() as int) == head);
    assert(s.skip(head.len() as int + 1) == tail);
}

/// Joining with one more field in front.
pub proof fn lemma_joined_prepend(first: Seq<char>, rest: Seq<Seq<char>>, sep: char)
    requires
        rest.len() >= 1,
    ensures
        joined(seq![first] + rest, sep) == first + seq![sep] + joined(rest, sep),
    decreases rest.len(),
{
    let all = seq![first] + rest;
    if rest.len() == 1 {
        assert(all.drop_last() =~= seq![first]);
        assert(all.last() == rest[0]);
        assert(joined(all.drop_last(), sep) == first);
    } else {
        lemma_joined_prepend(first, rest.drop_last(), sep);
        assert(all.drop_last() =~= seq![first] + rest.drop_last());
        assert(all.last() == rest.last());
        assert(joined(all, sep) =~= first + seq![sep] + joined(rest, sep));
    }
}

/// Joining the fields of a text gives the text back.
pub proof fn lemma_joined_fields(s: Seq<char>, sep: char)
    ensures
        joined(fields_of(s, sep), sep) == s,
    decreases s.len(),
{
    lemma_first_index_of(s, sep);
    let i = first_index_of(s, sep);
    if 0 <= i < s.len() {
        let rest = s.skip(i + 1);
        lemma_joined_fields(rest, sep);
        lemma_fields_of(rest, sep);
        lemma_joined_prepend(s.take(i), fields_of(rest, sep), sep);
        assert(s =~= s.take(i) + seq![sep] + rest);
    }
}

/// Splits `chars` at every `sep`.
pub fn split(chars: &Vec<char>, sep: char) -> (fields: Vec<Vec<char>>)
    ensures
        views(fields@) == fields_of(chars@, sep),
        fields@.len() >= 1,
{
    let mut fields: Vec<Vec<char>> = Vec::new();
    let mut current: Vec<char> = Vec::new();
    let ghost mut start: int = 0;
    let mut i: usize = 0;
    proof {
        assert(chars@.skip(0) == chars@);
        assert(views(fields@) + fields_of(chars@, sep) == fields_of(chars@, sep));
    }
    while i < chars.len()
        invariant
            0 <= start <= i <= chars@.len(),
            current@ == chars@.subrange(start, i as int),
            free_of(current@, sep),
            fields_of(chars@, sep) == views(fields@) + fields_of(chars@.skip(start), sep),
        decreases chars@.len() - i,
    {
        let c = chars[i];
        if c == sep {
            proof {
                let rest = chars@.skip(start);
                lemma_first_index_is(rest, sep, i - start);
                assert(rest.take(i - start) == current@);
                assert(rest.skip(i - start + 1) == chars@.skip(i + 1));
                lemma_views_push(fields@, current);
                assert(views(fields@).push(current@) + fields_of(chars@.skip(i + 1), sep)
                    == views(fields@) + (seq![current@] + fields_of(chars@.skip(i + 1), sep)));
            }
            fields.push(current);
            current = Vec::new();
            proof {
                start = i + 1;
            }
        } else {
            current.push(c);
        }
        i += 1;
    }
    proof {
        let rest = chars@.skip(start);
        assert(rest == current@);
        lemma_fields_of_single(rest, sep);
        lemma_views_push(fields@, current);
        assert(views(fields@).push(current@) == views(fields@) + seq![current@]);
    }
    fields.push(current);
    fields
}

// ---------------------------------------------------------------------------
// Lines
// ---------------------------------------------------------------------------

/// `line` without the carriage return at its end, if it has one.
pub open spec fn without_cr(line: Seq<char>) -> Seq<char> {
    if line.len() > 0 && line.last() == '\r' {
        line.drop_last()
    } else {
        line
    }
}

/// The lines of a text.  A line ends at a line feed, or at a carriage return
/// directly followed by a line feed; neither belongs to the line.  The last
/// line needs no line ending, and what follows the last line feed is a line
/// only if it is not empty.
pub open spec fn lines_of(s: Seq<char>) -> Seq<Seq<char>> {
    let parts = fields_of(s, '\n');
    let ended = Seq::new((parts.len() - 1) as nat, |i: int| without_cr(parts[i]));
    if parts.last().len() == 0 {
        ended
    } else {
        ended.push(parts.last())
    }
}

/// No line holds a line feed.
pub proof fn lemma_lines_of(s: Seq<char>)
    ensures
        forall|k: int| 0 <= k < lines_of(s).len() ==> free_of(#[trigger] lines_of(s)[k], '\n'),
{
    lemma_fields_of(s, '\n');
    let parts = fields_of(s, '\n');
    assert forall|k: int| 0 <= k < lines_of(s).len() implies free_of(
        #[trigger] lines_of(s)[k],
        '\n',
    ) by {
        assert(free_of(parts[k], '\n'));
    }
}

/// Splits `chars` into its lines.
pub fn split_lines(chars: &Vec<char>) -> (lines: Vec<Vec<char>>)
    ensures
        views(lines@) == lines_of(chars@),
{
    let mut parts = split(chars, '\n');
    let ghost all = views(parts@);
    let last = parts.pop().unwrap();
    assert(last@ == all.last());
    let mut lines: Vec<Vec<char>> = Vec::new();
    let mut i: usize = 0;
    while i < parts.len()
        invariant
            i <= parts@.len(),
            parts@.len() == all.len() - 1,
            forall|k: int| 0 <= k < parts@.len() ==> parts@[k]@ == all[k],
            views(lines@) == Seq::new(i as nat, |k: int| without_cr(all[k])),
        decreases parts@.len() - i,
    {
        let part = &parts[i];
        let mut line: Vec<char> = part.clone();
        assert(line@ == part@);
        let n = line.len();
        if n > 0 && line[n - 1] == '\r' {
            line.pop();
        }
        assert(line@ == without_cr(all[i as int]));
        proof {
            lemma_views_push(lines@, line);
            assert(views(lines@).push(line@) == Seq::new(
                (i + 1) as nat,
                |k: int| without_cr(all[k]),
            ));
        }
        lines.push(line);
        i += 1;
    }
    if last.len() > 0 {
        proof {
            lemma_views_push(lines@, last);
        }
        lines.push(last);
    }
    lines
}

// ---------------------------------------------------------------------------
// Decimal numbers
// ---------------------------------------------------------------------------

/// Whether `c` is one of the ten decimal digits.
pub open spec fn is_digit(c: char) -> bool {
    '0' <= c <= '9'
}

/// The number that the decimal digit `c` stands for.
pub open spec fn digit_value(c: char) -> nat {
    (c as int - '0' as int) as nat
}

/// Whether `s` holds decimal digits only.
pub open spec fn all_digits(s: Seq<char>) -> bool {
    forall|i: int| 0 <= i < s.len() ==> is_digit(#[trigger] s[i])
}

/// The number written by the decimal digits `s`, most significant first.
pub open spec fn decimal_value(s: Seq<char>) -> nat
    decreases s.len(),
{
    if s.len() == 0 {
        0
    } else {
        10 * decimal_value(s.drop_last()) + digit_value(s.last())
    }
}

/// The unsigned number that `s` denotes, if it is one and no larger than
/// `max`: an optional plus sign, then one or more decimal digits and
/// nothing else.  Leading zeros are allowed.
pub open spec fn unsigned_of(s: Seq<char>, max: nat) -> Option<nat> {
    let digits = if s.len() > 0 && s[0] == '+' {
        s.drop_first()
    } else {
        s
    };
    if digits.len() > 0 && all_digits(digits) && decimal_value(digits) <= max {
        Some(decimal_value(digits))
    } else {
        None
    }
}

/// The value of a digit string does not shrink when digits are appended.
pub proof fn lemma_decimal_value_grows(s: Seq<char>, n: int)
    requires
        0 <= n <= s.len(),
    ensures
        decimal_value(s.take(n)) <= decimal_value(s),
    decreases s.len() - n,
{
    if n < s.len() {
        lemma_decimal_value_grows(s.drop_last(), n);
        assert(s.drop_last().take(n) == s.take(n));
    } else {
        assert(s.take(n) == s);
    }
}

/// The value of the decimal digit `c`, or `None` where `c` is no digit.
pub fn digit_of(c: char) -> (d: Option<u8>)
    ensures
        d is Some <==> is_digit(c),
        d matches Some(v) ==> v == digit_value(c) && v < 10,
{
    if c >= '0' && c <= '9' {
        Some((c as u32 - '0' as u32) as u8)
    } else {
        None
    }
}

/// Reads the unsigned decimal number that `chars` denotes, up to `max`.
pub fn parse_unsigned(chars: &Vec<char>, max: u32) -> (value: Option<u32>)
    ensures
        value is Some <==> unsigned_of(chars@, max as nat) is Some,
        value matches Some(v) ==> v == unsigned_of(chars@, max as nat)->0,
{
    let n = chars.len();
    let first: usize = if n > 0 && chars[0] == '+' {
        1
    } else {
        0
    };
    let ghost digits = chars@.skip(first as int);
    proof {
        assert(chars@.skip(0) == chars@);
        if n > 0 {
            assert(chars@.skip(1) == chars@.drop_first());
        }
        assert(digits.take(0) == Seq::<char>::empty());
    }
    if first == n {
        return None;
    }
    let mut value: u32 = 0;
    let mut i: usize = first;
    while i < n
        invariant
            first <= i <= n,
            n == chars@.len(),
            digits == chars@.skip(first as int),
            digits == if chars@.len() > 0 && chars@[0] == '+' {
                chars@.drop_first()
            } else {
                chars@
            },
            all_digits(digits.take(i - first)),
            value == decimal_value(digits.take(i - first)),
            value <= max,
        decreases n - i,
    {
        let ghost before = digits.take(i - first);
        let ghost after = digits.take(i - first + 1);
        proof {
            assert(after.drop_last() == before);
            assert(after.last() == chars@[i as int]);
        }
        match digit_of(chars[i]) {
            None => {
                assert(!is_digit(digits[i - first]));
                return None;
            },
            Some(d) => {
                let next: u64 = value as u64 * 10 + d as u64;
                if next > max as u64 {
                    proof {
                        assert(decimal_value(after) > max);
                        lemma_decimal_value_grows(digits, i - first + 1);
                    }
                    return None;
                }
                value = next as u32;
                proof {
                    assert forall|k: int| 0 <= k < after.len() implies is_digit(
                        #[trigger] after[k],
                    ) by {
                        if k < before.len() {
                            assert(after[k] == before[k]);
                        }
                    }
                }
            },
        }
        i += 1;
    }
    proof {
        assert(digits.take(n - first) == digits);
    }
    Some(value)
}

/// The decimal digit that stands for `d`.
pub open spec fn digit_char(d: nat) -> char {
    (d + '0' as nat) as char
}

/// The decimal notation of `n`, without leading zeros.
pub open spec fn decimal_text(n: nat) -> Seq<char>
    decreases n,
{
    if n < 10 {
        seq![digit_char(n)]
    } else {
        decimal_text(n / 10).push(digit_char(n % 10))
    }
}

/// The decimal notation of a number holds digits only, starts with a zero
/// only for zero itself, and denotes that number.
pub proof fn lemma_decimal_text(n: nat)
    ensures
        decimal_text(n).len() >= 1,
        all_digits(decimal_text(n)),
        decimal_value(decimal_text(n)) == n,
        decimal_text(n)[0] == '0' <==> n == 0,
        n < 10 <==> decimal_text(n).len() == 1,
        n < 100 <==> decimal_text(n).len() <= 2,
        n < 1000 <==> decimal_text(n).len() <= 3,
    decreases n,
{
    if n < 10 {
        assert(decimal_text(n).drop_last() == Seq::<char>::empty());
        assert(decimal_value(Seq::<char>::empty()) == 0);
    } else {
        lemma_decimal_text(n / 10);
        let init = decimal_text(n / 10);
        let all = decimal_text(n);
        assert(all.drop_last() == init);
        assert(all[0] == init[0]);
        assert forall|k: int| 0 <= k < all.len() implies is_digit(#[trigger] all[k]) by {
            if k < init.len() {
                assert(all[k] == init[k]);
            }
        }
    }
}

/// Reading the decimal notation of a number gives that number back, and
/// the notation holds no character that is no digit.
pub proof fn lemma_decimal_text_reads_back(n: nat, max: nat, other: char)
    ensures
        n <= max ==> unsigned_of(decimal_text(n), max) == Some(n),
        n > max ==> unsigned_of(decimal_text(n), max) is None,
        !is_digit(other) ==> free_of(decimal_text(n), other),
{
    lemma_decimal_text(n);
    let text = decimal_text(n);
    assert(is_digit(text[0]));
    if !is_digit(other) {
        assert forall|i: int| 0 <= i < text.len() implies text[i] != other by {
            assert(is_digit(text[i]));
        }
    }
}

/// Appends the decimal notation of `n` to `out`.
pub fn push_decimal(out: &mut Vec<char>, n: u32)
    ensures
        final(out)@ == old(out)@ + decimal_text(n as nat),
    decreases n,
{
    if n >= 10 {
        push_decimal(out, n / 10);
    }
    let d: u8 = (n % 10) as u8;
    out.push((48u8 + d) as char);
}

// ---------------------------------------------------------------------------
// Hexadecimal numbers
// ---------------------------------------------------------------------------

/// Whether `c` is a hexadecimal digit, in either case.
pub open spec fn is_hex_digit(c: char) -> bool {
    ('0' <= c <= '9') || ('a' <= c <= 'f') || ('A' <= c <= 'F')
}

/// The number that the hexadecimal digit `c` stands for.
pub open spec fn hex_digit_value(c: char) -> nat {
    if '0' <= c <= '9' {
        (c as int - '0' as int) as nat
    } else if 'a' <= c <= 'f' {
        (c as int - 'a' as int + 10) as nat
    } else {
        (c as int - 'A' as int + 10) as nat
    }
}

/// Whether `s` holds hexadecimal digits only.
pub open spec fn all_hex_digits(s: Seq<char>) -> bool {
    forall|i: int| 0 <= i < s.len() ==> is_hex_digit(#[trigger] s[i])
}

/// The number written by the hexadecimal digits `s`, most significant first.
pub open spec fn hex_value(s: Seq<char>) -> nat
    decreases s.len(),
{
    if s.len() == 0 {
        0
    } else {
        16 * hex_value(s.drop_last()) + hex_digit_value(s.last())
    }
}

/// The value of the hexadecimal digit `c`, or `None` where `c` is none.
pub fn hex_digit_of(c: char) -> (d: Option<u8>)
    ensures
        d is Some <==> is_hex_digit(c),
        d matches Some(v) ==> v == hex_digit_value(c) && v < 16,
{
    if c >= '0' && c <= '9' {
        Some((c as u32 - '0' as u32) as u8)
    } else if c >= 'a' && c <= 'f' {
        Some((c as u32 - 'a' as u32 + 10) as u8)
    } else if c >= 'A' && c <= 'F' {
        Some((c as u32 - 'A' as u32 + 10) as u8)
    } else {
        None
    }
}

// ---------------------------------------------------------------------------
// Trimming
// ---------------------------------------------------------------------------

/// Whether `c` is white space: a character with the Unicode property
/// `White_Space`.
pub open spec fn is_whitespace(c: char) -> bool {
    let n = c as nat;
    ||| 0x09 <= n <= 0x0d
    ||| n == 0x20
    ||| n == 0x85
    ||| n == 0xa0
    ||| n == 0x1680
    ||| 0x2000 <= n <= 0x200a
    ||| n == 0x2028
    ||| n == 0x2029
    ||| n == 0x202f
    ||| n == 0x205f
    ||| n == 0x3000
}

/// The number of white-space characters at the start of `s`.
pub open spec fn leading_whitespace(s: Seq<char>) -> nat
    decreases s.len(),
{
    if s.len() > 0 && is_whitespace(s[0]) {
        1 + leading_whitespace(s.drop_first())
    } else {
        0
    }
}

/// The number of white-space characters at the end of `s`.
pub open spec fn trailing_whitespace(s: Seq<char>) -> nat
    decreases s.len(),
{
    if s.len() > 0 && is_whitespace(s.last()) {
        1 + trailing_whitespace(s.drop_last())
    } else {
        0
    }
}

/// `s` without the white space at its start and at its end.
pub open spec fn trimmed(s: Seq<char>) -> Seq<char> {
    let rest = s.skip(leading_whitespace(s) as int);
    rest.take(rest.len() - trailing_whitespace(rest))
}

/// The white space at the start of a text is white space, lies within the
/// text, and ends before a character that is none.
pub proof fn lemma_leading_whitespace(s: Seq<char>)
    ensures
        leading_whitespace(s) <= s.len(),
        forall|i: int| 0 <= i < leading_whitespace(s) ==> is_whitespace(#[trigger] s[i]),
        leading_whitespace(s) < s.len() ==> !is_whitespace(s[leading_whitespace(s) as int]),
    decreases s.len(),
{
    if s.len() > 0 && is_whitespace(s[0]) {
        let rest = s.drop_first();
        lemma_leading_whitespace(rest);
        assert forall|i: int| 0 <= i < leading_whitespace(s) implies is_whitespace(
            #[trigger] s[i],
        ) by {
            if i > 0 {
                assert(s[i] == rest[i - 1]);
            }
        }
        if leading_whitespace(s) < s.len() {
            assert(s[leading_whitespace(s) as int] == rest[leading_whitespace(rest) as int]);
        }
    }
}

/// The white space at the end of a text is white space, lies within the
/// text, and starts after a character that is none.
pub proof fn lemma_trailing_whitespace(s: Seq<char>)
    ensures
        trailing_whitespace(s) <= s.len(),
        forall|i: int|
            s.len() - trailing_whitespace(s) <= i < s.len() ==> is_whitespace(#[trigger] s[i]),
        trailing_whitespace(s) < s.len() ==> !is_whitespace(
            s[s.len() - trailing_whitespace(s) - 1],
        ),
    decreases s.len(),
{
    if s.len() > 0 && is_whitespace(s.last()) {
        let rest = s.drop_last();
        lemma_trailing_whitespace(rest);
        assert forall|i: int| s.len() - trailing_whitespace(s) <= i < s.len() implies is_whitespace(
            #[trigger] s[i],
        ) by {
            if i < s.len() - 1 {
                assert(s[i] == rest[i]);
            }
        }
        if trailing_whitespace(s) < s.len() {
            assert(s[s.len() - trailing_whitespace(s) - 1] == rest[rest.len()
                - trailing_whitespace(rest) - 1]);
        }
    }
}

/// A trimmed text is the middle of the text: what was cut off at either
/// end is white space, and what is left neither starts nor ends with white
/// space.
pub proof fn lemma_trimmed(s: Seq<char>)
    ensures
        exists|from: int, to: int|
            {
                &&& 0 <= from <= to <= s.len()
                &&& #[trigger] s.subrange(from, to) == trimmed(s)
                &&& forall|i: int| 0 <= i < from ==> is_whitespace(#[trigger] s[i])
                &&& forall|i: int| to <= i < s.len() ==> is_whitespace(#[trigger] s[i])
            },
        trimmed(s).len() > 0 ==> !is_whitespace(trimmed(s)[0]) && !is_whitespace(trimmed(s).last()),
{
    lemma_leading_whitespace(s);
    let from = leading_whitespace(s) as int;
    let rest = s.skip(from);
    lemma_trailing_whitespace(rest);
    let to = s.len() - trailing_whitespace(rest);
    assert(s.subrange(from, to) =~= trimmed(s));
    assert forall|i: int| to <= i < s.len() implies is_whitespace(#[trigger] s[i]) by {
        assert(s[i] == rest[i - from]);
    }
    if trimmed(s).len() > 0 {
        assert(trimmed(s)[0] == s[from]);
        assert(trimmed(s).last() == rest[rest.len() - trailing_whitespace(rest) - 1]);
    }
}

/// Whether `c` is white space.
pub fn whitespace(c: char) -> (w: bool)
    ensures
        w == is_whitespace(c),
{
    let n: u32 = c as u32;
    (0x09 <= n && n <= 0x0d) || n == 0x20 || n == 0x85 || n == 0xa0 || n == 0x1680 || (0x2000 <= n
        && n <= 0x200a) || n == 0x2028 || n == 0x2029 || n == 0x202f || n == 0x205f || n == 0x3000
}

/// `chars` without the white space at its start and at its end.
pub fn trim(chars: &Vec<char>) -> (kept: Vec<char>)
    ensures
        kept@ == trimmed(chars@),
{
    let n = chars.len();
    let mut from: usize = 0;
    assert(chars@.skip(0) == chars@);
    while from < n && whitespace(chars[from])
        invariant
            from <= n,
            n == chars@.len(),
            leading_whitespace(chars@) == from + leading_whitespace(chars@.skip(from as int)),
        decreases n - from,
    {
        proof {
            let rest = chars@.skip(from as int);
            assert(rest.drop_first() == chars@.skip(from + 1));
        }
        from += 1;
    }
    let ghost rest = chars@.skip(from as int);
    assert(leading_whitespace(rest) == 0) by {
        if from < n {
            assert(rest[0] == chars@[from as int]);
        }
    }
    let mut to: usize = n;
    assert(rest.take(n - from) == rest);
    while to > from && whitespace(chars[to - 1])
        invariant
            from <= to <= n,
            n == chars@.len(),
            rest == chars@.skip(from as int),
            trailing_whitespace(rest) == (n - to) + trailing_whitespace(rest.take(to - from)),
        decreases to,
    {
        proof {
            let head = rest.take(to - from);
            assert(head.last() == chars@[to - 1]);
            assert(head.drop_last() == rest.take(to - from - 1));
        }
        to -= 1;
    }
    assert(trailing_whitespace(rest.take(to - from)) == 0) by {
        if to > from {
            assert(rest.take(to - from).last() == chars@[to - 1]);
        }
    }
    assert(chars@.subrange(from as int, to as int) == rest.take(to - from));
    copy_range(chars, from, to)
}

} // verus!
