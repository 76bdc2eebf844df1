//! The target set: an immutable collection of 32-bit checksums, built once
//! from hexadecimal text records, with a logarithmic membership test.

use crate::hex::hex_value;
use crate::hex::is_valid_hex_u32;
use crate::hex::parse_hex_u32;
use crate::hex::trim_spec;
use vstd::prelude::*;

verus! {

/// Whether a record denotes a target checksum.
pub open spec fn line_ok(l: Seq<char>) -> bool {
    is_valid_hex_u32(trim_spec(l))
}

/// The checksum a valid record denotes.
pub open spec fn line_value(l: Seq<char>) -> u32 {
    hex_value(trim_spec(l)) as u32
}

/// Whether every record is valid.
pub open spec fn all_lines_ok(lines: Seq<String>) -> bool {
    forall|i: int| 0 <= i < lines.len() ==> line_ok(lines[i]@)
}

/// The set of checksums a list of records denotes.
pub open spec fn lines_values(lines: Seq<String>) -> Set<u32> {
    Set::new(|h: u32| exists|i: int| 0 <= i < lines.len() && line_value(lines[i]@) == h)
}

spec fn sorted(s: Seq<u32>) -> bool {
    forall|i: int, j: int| 0 <= i < j < s.len() ==> s[i] <= s[j]
}

/// An immutable set of target checksums, stored sorted so that membership
/// is a binary search.
pub struct TargetSet {
    values: Vec<u32>,
}

impl View for TargetSet {
    type V = Set<u32>;

    closed spec fn view(&self) -> Set<u32> {
        self.values@.to_set()
    }
}

/// Insert `v` into a sorted vector, keeping it sorted.
fn insert_sorted(values: &mut Vec<u32>, v: u32)
    requires
        sorted(old(values)@),
    ensures
        sorted(final(values)@),
        final(values)@.to_set() == old(values)@.to_set().insert(v),
{
    let len = values.len();
    let mut pos: usize = 0;
    while pos < len && values[pos] < v
        invariant
            pos <= len,
            len == values@.len(),
            sorted(values@),
            forall|j: int| 0 <= j < pos ==> values@[j] < v,
        decreases len - pos,
    {
        pos = pos + 1;
    }
    let ghost before = values@;
    values.insert(pos, v);
    proof {
        assert(values@ == before.insert(pos as int, v));
        assert forall|i: int, j: int| 0 <= i < j < values@.len() implies values@[i]
            <= values@[j] by {
            if j < pos {
                assert(values@[i] == before[i] && values@[j] == before[j]);
            } else if i > pos {
                assert(values@[i] == before[i - 1] && values@[j] == before[j - 1]);
            } else if i < pos && j == pos {
                assert(values@[i] == before[i] && values@[j] == v);
            } else if i == pos && j > pos {
                assert(values@[i] == v && values@[j] == before[j - 1]);
                assert(pos < before.len() ==> before[pos as int] >= v);
                assert(before[j - 1] >= v);
            } else if i < pos && j > pos {
                assert(values@[i] == before[i] && values@[j] == before[j - 1]);
                assert(pos < before.len() ==> before[pos as int] >= v);
            }
        }
        assert forall|h: u32| values@.to_set().contains(h) <==> before.to_set().insert(
            v,
        ).contains(h) by {
            if values@.to_set().contains(h) {
                let k = choose|k: int| 0 <= k < values@.len() && values@[k] == h;
                if k < pos {
                    assert(before[k] == h);
                } else if k == pos {
                    assert(h == v);
                } else {
                    assert(before[k - 1] == h);
                }
            }
            if before.to_set().insert(v).contains(h) {
                if h == v {
                    assert(values@[pos as int] == h);
                } else {
                    let k = choose|k: int| 0 <= k < before.len() && before[k] == h;
                    if k < pos {
                        assert(values@[k] == h);
                    } else {
                        assert(values@[k + 1] == h);
                    }
                }
            }
        }
        assert(values@.to_set() =~= before.to_set().insert(v));
    }
}

impl TargetSet {
    /// The stored values are sorted.
    pub closed spec fn wf(&self) -> bool {
        sorted(self.values@)
    }

    /// Build the set from hexadecimal records, one value per record.
    /// Succeeds exactly when every record is valid; otherwise reports the
    /// index of the first invalid record.
    pub fn from_lines(lines: &Vec<String>) -> (r: Result<TargetSet, usize>)
        ensures
            match r {
                Ok(ts) => {
                    &&& ts.wf()
                    &&& all_lines_ok(lines@)
                    &&& ts@ == lines_values(lines@)
                },
                Err(i) => {
                    &&& i < lines@.len()
                    &&& !line_ok(lines@[i as int]@)
                    &&& forall|j: int| 0 <= j < i ==> line_ok(lines@[j]@)
                },
            },
    {
        let mut values: Vec<u32> = Vec::new();
        let n = lines.len();
        let mut idx: usize = 0;
        while idx < n
            invariant
                idx <= n,
                n == lines@.len(),
                sorted(values@),
                forall|j: int| 0 <= j < idx ==> line_ok(lines@[j]@),
                values@.to_set() == lines_values(lines@.take(idx as int)),
            decreases n - idx,
        {
            let line = &lines[idx];
            match parse_hex_u32(line.as_str()) {
                None => {
                    return Err(idx);
                },
                Some(v) => {
                    let ghost before = values@;
                    insert_sorted(&mut values, v);
                    proof {
                        let prev = lines@.take(idx as int);
                        let cur = lines@.take(idx as int + 1);
                        assert(cur[idx as int] == lines@[idx as int]);
                        assert(v == line_value(lines@[idx as int]@));
                        assert forall|h: u32| lines_values(cur).contains(h) <==> before.to_set()
                            .insert(v).contains(h) by {
                            if lines_values(cur).contains(h) {
                                let k = choose|k: int|
                                    0 <= k < cur.len() && line_value(cur[k]@) == h;
                                if k < idx {
                                    assert(prev[k] == cur[k]);
                                    assert(lines_values(prev).contains(h));
                                } else {
                                    assert(h == v);
                                }
                            }
                            if before.to_set().insert(v).contains(h) {
                                if h == v {
                                    assert(line_value(cur[idx as int]@) == h);
                                    assert(lines_values(cur).contains(h));
                                } else {
                                    assert(lines_values(prev).contains(h));
                                    let k = choose|k: int|
                                        0 <= k < prev.len() && line_value(prev[k]@) == h;
                                    assert(cur[k] == prev[k]);
                                    assert(lines_values(cur).contains(h));
                                }
                            }
                        }
                        assert(values@.to_set() =~= lines_values(cur));
                    }
                },
            }
            idx = idx + 1;
        }
        proof {
            assert(lines@.take(n as int) =~= lines@);
        }
        Ok(TargetSet { values })
    }

    /// How many stored checksums the set holds; zero exactly when no
    /// value is a member.
    pub fn len(&self) -> (r: usize)
        ensures
            r == self.values_len(),
            (r == 0) <==> (self@ =~= Set::<u32>::empty()),
    {
        proof {
            if self.values@.len() == 0 {
                assert(self@ =~= Set::<u32>::empty());
            } else {
                assert(self.values@.contains(self.values@[0]));
                assert(self@.contains(self.values@[0]));
            }
        }
        self.values.len()
    }

    /// The number of stored values (duplicates included).
    pub closed spec fn values_len(&self) -> nat {
        self.values@.len()
    }

    /// Binary search: whether `h` is one of the target checksums.
    /// No false positives and no false negatives.
    pub fn contains(&self, h: u32) -> (r: bool)
        requires
            self.wf(),
        ensures
            r == self@.contains(h),
    {
        let len = self.values.len();
        let mut lo: usize = 0;
        let mut hi: usize = len;
        while lo < hi
            invariant
                lo <= hi <= len,
                len == self.values@.len(),
                sorted(self.values@),
                forall|j: int| 0 <= j < lo ==> self.values@[j] < h,
                forall|j: int| hi <= j < len ==> self.values@[j] > h,
            decreases hi - lo,
        {
            let mid = lo + (hi - lo) / 2;
            let x = self.values[mid];
            if x < h {
                lo = mid + 1;
            } else if x > h {
                hi = mid;
            } else {
                assert(self.values@[mid as int] == h);
                assert(self.values@.contains(h));
                return true;
            }
        }
        proof {
            assert forall|k: int| 0 <= k < len implies self.values@[k] != h by {
                if k < lo {
                    assert(self.values@[k] < h);
                } else {
                    assert(self.values@[k] > h);
                }
            }
        }
        false
    }
}

/// Target-set round trip: after a successful build, a checksum is in the
/// set exactly when some record denotes it, and a value no record denotes
/// is never reported as present.
pub proof fn lemma_target_round_trip(ts: TargetSet, lines: Seq<String>, h: u32)
    requires
        ts@ == lines_values(lines),
    ensures
        ts@.contains(h) <==> exists|i: int| 0 <= i < lines.len() && line_value(lines[i]@) == h,
{
}

} // verus!
