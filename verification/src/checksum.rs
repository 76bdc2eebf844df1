//! The checksum engine: a 256-entry lookup table built from the reflected
//! CRC-32 polynomial `0xEDB88320`, and the streaming checksum computed by
//! folding a string through that table.

use vstd::prelude::*;

verus! {

/// One round of the table-generation recurrence: shift right once and, if
/// the bit shifted out was set, fold in the reflected polynomial.
pub open spec fn crc_round(c: u32) -> u32 {
    if c & 1 != 0 {
        0xedb88320u32 ^ (c >> 1)
    } else {
        c >> 1
    }
}

/// `k` rounds of the recurrence applied to `c`.
pub open spec fn crc_rounds(c: u32, k: nat) -> u32
    decreases k,
{
    if k == 0 {
        c
    } else {
        crc_round(crc_rounds(c, (k - 1) as nat))
    }
}

/// Entry `n` of the lookup table: byte value `n` run through eight rounds.
pub open spec fn table_entry(n: int) -> u32 {
    crc_rounds(n as u32, 8)
}

/// One streaming step: consume character `ch` with running value `crc`.
/// Only the low eight bits of `crc ^ ch` select the table row, so a
/// character outside the byte range still contributes exactly its low
/// bits' worth to the row index.
pub open spec fn crc_update(crc: u32, ch: char) -> u32 {
    (crc >> 8) ^ table_entry(((crc ^ (ch as u32)) & 0xff) as int)
}

/// Fold a whole string through the table starting from `crc`.
pub open spec fn crc_fold(crc: u32, s: Seq<char>) -> u32
    decreases s.len(),
{
    if s.len() == 0 {
        crc
    } else {
        crc_fold(crc_update(crc, s[0]), s.drop_first())
    }
}

/// The checksum of a string: fold from the all-ones seed, then complement
/// exactly once at the end.
pub open spec fn crc32_spec(s: Seq<char>) -> u32 {
    crc_fold(0xffffffffu32, s) ^ 0xffffffffu32
}

/// Folding one more character on the right is one more streaming step.
pub proof fn lemma_crc_fold_push(crc: u32, s: Seq<char>, ch: char)
    ensures
        crc_fold(crc, s.push(ch)) == crc_update(crc_fold(crc, s), ch),
    decreases s.len(),
{
    let t = s.push(ch);
    assert(t.len() == s.len() + 1);
    assert(crc_fold(crc, t) == crc_fold(crc_update(crc, t[0]), t.drop_first()));
    if s.len() == 0 {
        assert(t[0] == ch);
        assert(t.drop_first() =~= Seq::<char>::empty());
        assert(crc_fold(crc, s) == crc);
    } else {
        assert(t[0] == s[0]);
        assert(t.drop_first() =~= s.drop_first().push(ch));
        lemma_crc_fold_push(crc_update(crc, s[0]), s.drop_first(), ch);
        assert(crc_fold(crc, s) == crc_fold(crc_update(crc, s[0]), s.drop_first()));
    }
}

/// The checksum of the empty string is zero.
pub proof fn lemma_crc32_empty()
    ensures
        crc32_spec(Seq::<char>::empty()) == 0,
{
    assert(0xffffffffu32 ^ 0xffffffffu32 == 0) by (bit_vector);
}

/// Determinism: the checksum is a pure function of the character sequence,
/// so any two calls on equal strings — from the same worker or from
/// different workers in any interleaving — yield the same value.
pub proof fn lemma_crc32_deterministic(s1: Seq<char>, s2: Seq<char>)
    requires
        s1 == s2,
    ensures
        crc32_spec(s1) == crc32_spec(s2),
{
}

/// The 256-entry lookup table, built once and then shared read-only.
pub struct CrcTable {
    entries: Vec<u32>,
}

impl CrcTable {
    /// Every entry agrees with the generating recurrence.
    pub closed spec fn wf(&self) -> bool {
        &&& self.entries@.len() == 256
        &&& forall|i: int| 0 <= i < 256 ==> self.entries@[i] == table_entry(i)
    }

    /// Build the table: for each byte value, eight rounds of the recurrence.
    pub fn new() -> (t: CrcTable)
        ensures
            t.wf(),
    {
        let mut entries: Vec<u32> = Vec::new();
        let mut n: usize = 0;
        while n < 256
            invariant
                n <= 256,
                entries@.len() == n,
                forall|i: int| 0 <= i < n ==> entries@[i] == table_entry(i),
            decreases 256 - n,
        {
            let mut c: u32 = n as u32;
            let mut k: usize = 0;
            while k < 8
                invariant
                    k <= 8,
                    n < 256,
                    c == crc_rounds(n as u32, k as nat),
                decreases 8 - k,
            {
                c = if c & 1 != 0 {
                    0xedb88320u32 ^ (c >> 1)
                } else {
                    c >> 1
                };
                k = k + 1;
            }
            entries.push(c);
            n = n + 1;
        }
        CrcTable { entries }
    }

    /// Read table row `i`.
    pub fn entry(&self, i: usize) -> (r: u32)
        requires
            self.wf(),
            i < 256,
        ensures
            r == table_entry(i as int),
    {
        self.entries[i]
    }
}

/// The checksum of a borrowed string slice.
pub fn crc32(s: &str, table: &CrcTable) -> (r: u32)
    requires
        table.wf(),
    ensures
        r == crc32_spec(s@),
{
    let len = s.unicode_len();
    let mut crc: u32 = 0xffffffff;
    let mut i: usize = 0;
    while i < len
        invariant
            i <= len,
            len == s@.len(),
            table.wf(),
            crc == crc_fold(0xffffffffu32, s@.take(i as int)),
        decreases len - i,
    {
        let ch = s.get_char(i);
        let chu = ch as u32;
        let idx = (crc ^ chu) & 0xff;
        assert((crc ^ chu) & 0xff < 256) by (bit_vector);
        let row = table.entry(idx as usize);
        proof {
            lemma_crc_fold_push(0xffffffffu32, s@.take(i as int), s@[i as int]);
            assert(s@.take(i + 1 as int) =~= s@.take(i as int).push(s@[i as int]));
        }
        crc = (crc >> 8) ^ row;
        i = i + 1;
    }
    proof {
        assert(s@.take(len as int) =~= s@);
    }
    crc ^ 0xffffffff
}

/// The checksum of a string held as a vector of characters, as the
/// enumeration engine assembles candidates.
pub fn crc32_chars(s: &Vec<char>, table: &CrcTable) -> (r: u32)
    requires
        table.wf(),
    ensures
        r == crc32_spec(s@),
{
    let len = s.len();
    let mut crc: u32 = 0xffffffff;
    let mut i: usize = 0;
    while i < len
        invariant
            i <= len,
            len == s@.len(),
            table.wf(),
            crc == crc_fold(0xffffffffu32, s@.take(i as int)),
        decreases len - i,
    {
        let ch = s[i];
        let chu = ch as u32;
        let idx = (crc ^ chu) & 0xff;
        assert((crc ^ chu) & 0xff < 256) by (bit_vector);
        let row = table.entry(idx as usize);
        proof {
            lemma_crc_fold_push(0xffffffffu32, s@.take(i as int), s@[i as int]);
            assert(s@.take(i + 1 as int) =~= s@.take(i as int).push(s@[i as int]));
        }
        crc = (crc >> 8) ^ row;
        i = i + 1;
    }
    proof {
        assert(s@.take(len as int) =~= s@);
    }
    crc ^ 0xffffffff
}

} // verus!
