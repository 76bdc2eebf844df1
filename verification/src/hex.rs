//! Parsing of hexadecimal target-checksum records: a record is valid when,
//! after trimming surrounding whitespace, it is a non-empty string of hex
//! digits whose value fits in 32 bits.

use vstd::prelude::*;

verus! {

/// The whitespace characters stripped from either end of a record.
pub open spec fn is_space(c: char) -> bool {
    c == ' ' || c == '\t' || c == '\n' || c == '\r' || c == '\u{b}' || c == '\u{c}'
}

/// Whether `c` is a hexadecimal digit, either case.
pub open spec fn is_hex_digit(c: char) -> bool {
    ||| '0' as u32 <= c as u32 && c as u32 <= '9' as u32
    ||| 'a' as u32 <= c as u32 && c as u32 <= 'f' as u32
    ||| 'A' as u32 <= c as u32 && c as u32 <= 'F' as u32
}

/// The numeric value of a hexadecimal digit (zero on a non-digit).
pub open spec fn hex_digit_value(c: char) -> nat {
    if '0' as u32 <= c as u32 && c as u32 <= '9' as u32 {
        (c as u32 - '0' as u32) as nat
    } else if 'a' as u32 <= c as u32 && c as u32 <= 'f' as u32 {
        (c as u32 - 'a' as u32 + 10) as nat
    } else if 'A' as u32 <= c as u32 && c as u32 <= 'F' as u32 {
        (c as u32 - 'A' as u32 + 10) as nat
    } else {
        0
    }
}

/// The value of a digit string read most-significant digit first.
pub open spec fn hex_value(s: Seq<char>) -> nat
    decreases s.len(),
{
    if s.len() == 0 {
        0
    } else {
        hex_value(s.drop_last()) * 16 + hex_digit_value(s.last())
    }
}

/// Leading whitespace removed.
pub open spec fn trim_start(s: Seq<char>) -> Seq<char>
    decreases s.len(),
{
    if s.len() == 0 {
        s
    } else if is_space(s[0]) {
        trim_start(s.drop_first())
    } else {
        s
    }
}

/// Trailing whitespace removed.
pub open spec fn trim_end(s: Seq<char>) -> Seq<char>
    decreases s.len(),
{
    if s.len() == 0 {
        s
    } else if is_space(s.last()) {
        trim_end(s.drop_last())
    } else {
        s
    }
}

/// Whitespace removed from both ends.
pub open spec fn trim_spec(s: Seq<char>) -> Seq<char> {
    trim_end(trim_start(s))
}

/// Whether every character of `s` is a hexadecimal digit.
pub open spec fn all_hex_digits(s: Seq<char>) -> bool {
    forall|i: int| 0 <= i < s.len() ==> is_hex_digit(s[i])
}

/// A valid record body: non-empty, all hex digits, and within 32 bits.
pub open spec fn is_valid_hex_u32(s: Seq<char>) -> bool {
    s.len() > 0 && all_hex_digits(s) && hex_value(s) <= u32::MAX
}

/// Skipping a block of leading spaces does not change the trimmed string.
proof fn lemma_trim_start_skip(s: Seq<char>, i: int)
    requires
        0 <= i <= s.len(),
        forall|j: int| 0 <= j < i ==> is_space(s[j]),
    ensures
        trim_start(s) == trim_start(s.skip(i)),
    decreases i,
{
    if i == 0 {
        assert(s.skip(0) =~= s);
    } else {
        assert(is_space(s[0]));
        assert(s.drop_first() =~= s.skip(1));
        lemma_trim_start_skip(s.skip(1), i - 1);
        assert(s.skip(1).skip(i - 1) =~= s.skip(i));
    }
}

/// Dropping a block of trailing spaces does not change the trimmed string.
proof fn lemma_trim_end_take(s: Seq<char>, i: int)
    requires
        0 <= i <= s.len(),
        forall|j: int| i <= j < s.len() ==> is_space(s[j]),
    ensures
        trim_end(s) == trim_end(s.take(i)),
    decreases s.len() - i,
{
    if i == s.len() {
        assert(s.take(i) =~= s);
    } else {
        assert(is_space(s.last()));
        assert(s.drop_last() =~= s.take(s.len() - 1));
        lemma_trim_end_take(s.take(s.len() - 1), i);
        assert(s.take(s.len() - 1).take(i) =~= s.take(i));
    }
}

/// With `start..end` the maximal interior free of surrounding whitespace,
/// trimming is exactly taking that subrange.
proof fn lemma_trim_is_subrange(s: Seq<char>, start: int, end: int)
    requires
        0 <= start <= end <= s.len(),
        forall|j: int| 0 <= j < start ==> is_space(s[j]),
        forall|j: int| end <= j < s.len() ==> is_space(s[j]),
        start < end ==> !is_space(s[start]),
        start < end ==> !is_space(s[end - 1]),
    ensures
        trim_spec(s) == s.subrange(start, end),
{
    lemma_trim_start_skip(s, start);
    let t = s.skip(start);
    if start == end {
        lemma_trim_start_skip(t, t.len() as int);
        assert(t.skip(t.len() as int) =~= Seq::<char>::empty());
        assert(trim_start(s) == Seq::<char>::empty());
        assert(s.subrange(start, end) =~= Seq::<char>::empty());
        assert(trim_spec(s) =~= s.subrange(start, end));
    } else {
        assert(!is_space(t[0]));
        assert(trim_start(s) == t);
        assert(forall|j: int| end - start <= j < t.len() ==> is_space(t[j]));
        lemma_trim_end_take(t, end - start);
        let u = t.take(end - start);
        assert(u.len() > 0 && !is_space(u.last()));
        assert(trim_end(u) == u);
        assert(u =~= s.subrange(start, end));
    }
}

/// A digit string is worth at least any of its prefixes.
proof fn lemma_hex_value_prefix(s: Seq<char>, k: int)
    requires
        0 <= k <= s.len(),
    ensures
        hex_value(s) >= hex_value(s.take(k)),
    decreases s.len(),
{
    if k == s.len() {
        assert(s.take(k) =~= s);
    } else {
        assert(s.len() > 0);
        lemma_hex_value_prefix(s.drop_last(), k);
        assert(s.drop_last().take(k) =~= s.take(k));
        assert(hex_value(s.drop_last()) * 16 >= hex_value(s.drop_last()));
    }
}

/// Whether `c` is one of the stripped whitespace characters.
pub fn is_space_char(c: char) -> (r: bool)
    ensures
        r == is_space(c),
{
    c == ' ' || c == '\t' || c == '\n' || c == '\r' || c == '\u{b}' || c == '\u{c}'
}

/// Whether `c` is a hexadecimal digit, either case.
pub fn is_hex_digit_char(c: char) -> (r: bool)
    ensures
        r == is_hex_digit(c),
{
    let u = c as u32;
    (48 <= u && u <= 57) || (97 <= u && u <= 102) || (65 <= u && u <= 70)
}

/// The numeric value of a hexadecimal digit.
pub fn hex_digit_value_char(c: char) -> (r: u32)
    requires
        is_hex_digit(c),
    ensures
        r == hex_digit_value(c),
        r < 16,
{
    let u = c as u32;
    if 48 <= u && u <= 57 {
        u - 48
    } else if 97 <= u && u <= 102 {
        u - 97 + 10
    } else {
        u - 65 + 10
    }
}

/// Parse a record as a base-16 unsigned 32-bit integer after trimming
/// surrounding whitespace.  Returns the value exactly when the trimmed
/// record is valid, and nothing otherwise.
pub fn parse_hex_u32(s: &str) -> (r: Option<u32>)
    ensures
        is_valid_hex_u32(trim_spec(s@)) ==> r == Some((hex_value(trim_spec(s@)) as u32)),
        !is_valid_hex_u32(trim_spec(s@)) ==> r is None,
{
    let len = s.unicode_len();
    let mut start: usize = 0;
    while start < len && is_space_char(s.get_char(start))
        invariant
            start <= len,
            len == s@.len(),
            forall|j: int| 0 <= j < start ==> is_space(s@[j]),
        decreases len - start,
    {
        start = start + 1;
    }
    if start == len {
        proof {
            lemma_trim_is_subrange(s@, start as int, start as int);
            assert(trim_spec(s@).len() == 0);
        }
        return None;
    }
    let mut end: usize = len;
    while end > start && is_space_char(s.get_char(end - 1))
        invariant
            start <= end <= len,
            len == s@.len(),
            forall|j: int| end <= j < len ==> is_space(s@[j]),
        decreases end,
    {
        end = end - 1;
    }
    proof {
        lemma_trim_is_subrange(s@, start as int, end as int);
    }
    let ghost t = trim_spec(s@);
    assert(t =~= s@.subrange(start as int, end as int));
    assert(t.len() > 0);
    let mut acc: u64 = 0;
    let mut i: usize = start;
    while i < end
        invariant
            start <= i <= end <= len,
            len == s@.len(),
            t == trim_spec(s@),
            t == s@.subrange(start as int, end as int),
            forall|j: int| start <= j < i ==> is_hex_digit(s@[j]),
            acc == hex_value(t.take(i as int - start as int)),
            acc <= u32::MAX,
        decreases end - i,
    {
        let c = s.get_char(i);
        assert(t[i as int - start as int] == s@[i as int]);
        if !is_hex_digit_char(c) {
            assert(!all_hex_digits(t));
            return None;
        }
        let d = hex_digit_value_char(c);
        let next: u64 = acc * 16 + d as u64;
        proof {
            let k = i as int - start as int;
            assert(t.take(k + 1).drop_last() =~= t.take(k));
            assert(t.take(k + 1).last() == t[k]);
            assert(next == hex_value(t.take(k + 1)));
        }
        if next > 0xffffffff {
            proof {
                lemma_hex_value_prefix(t, i as int - start as int + 1);
                assert(hex_value(t) > u32::MAX);
            }
            return None;
        }
        acc = next;
        i = i + 1;
    }
    proof {
        assert(t.take(end as int - start as int) =~= t);
        assert(forall|j: int|
            0 <= j < t.len() ==> t[j] == s@[start as int + j] && is_hex_digit(t[j]));
        assert(is_valid_hex_u32(t));
    }
    Some(acc as u32)
}

} // verus!
