//! The search-space partitioner and the enumeration-and-matching engine.
//!
//! A candidate string of length `l` over an alphabet of `a` symbols is
//! identified by its index in the lexicographic enumeration: the index is
//! read as an `l`-digit base-`a` numeral, most significant digit first.  A
//! work unit fixes a prefix of the candidate and enumerates the remaining
//! positions exhaustively; the units tile the full space with no overlap
//! and no gap.

use crate::checksum::crc32_chars;
use crate::checksum::crc32_spec;
use crate::checksum::CrcTable;
use crate::target::TargetSet;
use vstd::arithmetic::div_mod::lemma_div_multiples_vanish_fancy;
use vstd::arithmetic::div_mod::lemma_fundamental_div_mod;
use vstd::arithmetic::div_mod::lemma_mod_multiples_vanish;
use vstd::arithmetic::div_mod::lemma_multiply_divide_lt;
use vstd::arithmetic::div_mod::lemma_small_mod;
use vstd::multiset::Multiset;
use vstd::prelude::*;
use vstd::seq_lib::lemma_multiset_commutative;

verus! {

/// How many strings of length `l` an alphabet of `a` symbols admits.
pub open spec fn num_strings(a: nat, l: nat) -> nat
    decreases l,
{
    if l == 0 {
        1
    } else {
        a * num_strings(a, (l - 1) as nat)
    }
}

/// The `n`-th string of length `l` over `alpha`: the digits of `n` in base
/// `alpha.len()`, most significant first, each mapped to its symbol.  The
/// last position varies fastest as `n` counts up.
pub open spec fn nth_string(alpha: Seq<char>, l: nat, n: nat) -> Seq<char>
    decreases l,
{
    if l == 0 {
        Seq::empty()
    } else {
        nth_string(alpha, (l - 1) as nat, n / alpha.len()).push(
            alpha[(n % alpha.len()) as int],
        )
    }
}

/// Whether `s` lies in the search space: length `l`, every symbol drawn
/// from the alphabet.
pub open spec fn in_space(alpha: Seq<char>, l: nat, s: Seq<char>) -> bool {
    s.len() == l && forall|i: int| 0 <= i < s.len() ==> alpha.contains(s[i])
}

/// A longer string length never admits fewer strings.
proof fn lemma_num_strings_monotone(a: nat, k: nat, l: nat)
    requires
        a >= 1,
        k <= l,
    ensures
        num_strings(a, k) <= num_strings(a, l),
    decreases l,
{
    if k < l {
        lemma_num_strings_monotone(a, k, (l - 1) as nat);
        let m = num_strings(a, (l - 1) as nat);
        assert(a * m >= m) by (nonlinear_arith)
            requires
                a >= 1,
                m >= 0,
        ;
    }
}

/// A non-empty alphabet admits at least one string of every length.
proof fn lemma_num_strings_pos(a: nat, l: nat)
    requires
        a >= 1,
    ensures
        num_strings(a, l) >= 1,
{
    lemma_num_strings_monotone(a, 0, l);
}

/// The number of strings of length `l`, or nothing if it does not fit in
/// a machine word.  A caller uses this to validate a search before
/// running it.
pub fn checked_num_strings(a: usize, l: usize) -> (r: Option<usize>)
    ensures
        match r {
            Some(m) => m == num_strings(a as nat, l as nat),
            None => num_strings(a as nat, l as nat) > usize::MAX,
        },
{
    let mut m: usize = 1;
    let mut k: usize = 0;
    while k < l
        invariant
            k <= l,
            m == num_strings(a as nat, k as nat),
        decreases l - k,
    {
        match m.checked_mul(a) {
            Some(mm) => {
                assert(mm == num_strings(a as nat, (k + 1) as nat)) by {
                    assert(num_strings(a as nat, (k + 1) as nat) == a as nat * num_strings(
                        a as nat,
                        k as nat,
                    ));
                };
                m = mm;
            },
            None => {
                proof {
                    assert(m * a > usize::MAX);
                    assert(a >= 1 && m >= 1) by (nonlinear_arith)
                        requires
                            m * a > 0,
                    ;
                    assert(num_strings(a as nat, (k + 1) as nat) == a as nat * m);
                    lemma_num_strings_monotone(a as nat, (k + 1) as nat, l as nat);
                }
                return None;
            },
        }
        k = k + 1;
    }
    Some(m)
}

/// Assemble the `n`-th string of length `l` over the alphabet.
pub fn build_string(alpha: &Vec<char>, l: usize, n: usize) -> (r: Vec<char>)
    requires
        alpha@.len() > 0,
        n < num_strings(alpha@.len(), l as nat),
    ensures
        r@ == nth_string(alpha@, l as nat, n as nat),
    decreases l,
{
    if l == 0 {
        let r: Vec<char> = Vec::new();
        proof {
            assert(r@ =~= nth_string(alpha@, 0, n as nat));
        }
        r
    } else {
        let a = alpha.len();
        let q = n / a;
        let rem = n % a;
        proof {
            assert(num_strings(alpha@.len(), l as nat) == alpha@.len() * num_strings(
                alpha@.len(),
                (l - 1) as nat,
            ));
            lemma_multiply_divide_lt(
                n as int,
                a as int,
                num_strings(alpha@.len(), (l - 1) as nat) as int,
            );
        }
        let mut v = build_string(alpha, l - 1, q);
        v.push(alpha[rem]);
        v
    }
}

/// Append the characters of `src` to `dst`.
fn append_chars(dst: &mut Vec<char>, src: &Vec<char>)
    ensures
        final(dst)@ == old(dst)@ + src@,
{
    let n = src.len();
    let mut i: usize = 0;
    while i < n
        invariant
            i <= n,
            n == src@.len(),
            dst@ == old(dst)@ + src@.take(i as int),
        decreases n - i,
    {
        dst.push(src[i]);
        proof {
            assert(old(dst)@ + src@.take(i + 1 as int) =~= (old(dst)@ + src@.take(i as int)).push(
                src@[i as int],
            ));
        }
        i = i + 1;
    }
    proof {
        assert(src@.take(n as int) =~= src@);
    }
}

/// A candidate string whose checksum lies in the target set, together
/// with that checksum.
pub struct Match {
    pub text: Vec<char>,
    pub crc: u32,
}

impl View for Match {
    type V = (Seq<char>, u32);

    open spec fn view(&self) -> (Seq<char>, u32) {
        (self.text@, self.crc)
    }
}

/// The candidate with suffix index `n` in the unit that fixes `prefix`.
pub open spec fn unit_candidate(alpha: Seq<char>, prefix: Seq<char>, l: nat, n: nat) -> Seq<
    char,
> {
    prefix + nth_string(alpha, l, n)
}

/// The matches among the first `k` candidates of a unit, in enumeration
/// order.
pub open spec fn unit_matches_upto(
    alpha: Seq<char>,
    prefix: Seq<char>,
    l: nat,
    targets: Set<u32>,
    k: nat,
) -> Seq<(Seq<char>, u32)>
    decreases k,
{
    if k == 0 {
        Seq::empty()
    } else {
        let prev = unit_matches_upto(alpha, prefix, l, targets, (k - 1) as nat);
        let cand = unit_candidate(alpha, prefix, l, (k - 1) as nat);
        if targets.contains(crc32_spec(cand)) {
            prev.push((cand, crc32_spec(cand)))
        } else {
            prev
        }
    }
}

/// All matches of one work unit, in enumeration order.
pub open spec fn unit_matches(alpha: Seq<char>, prefix: Seq<char>, l: nat, targets: Set<u32>) -> Seq<
    (Seq<char>, u32),
> {
    unit_matches_upto(alpha, prefix, l, targets, num_strings(alpha.len(), l))
}

/// All matches of the whole search: the single unit with the empty prefix
/// covering the full length.
pub open spec fn all_matches(alpha: Seq<char>, l: nat, targets: Set<u32>) -> Seq<(Seq<char>, u32)> {
    unit_matches(alpha, Seq::empty(), l, targets)
}

/// Splitting a length is multiplying the counts: a string of length
/// `p + q` is a prefix of length `p` followed by a suffix of length `q`.
pub proof fn lemma_num_strings_add(a: nat, p: nat, q: nat)
    ensures
        num_strings(a, p + q) == num_strings(a, p) * num_strings(a, q),
    decreases p,
{
    let qq = num_strings(a, q);
    if p == 0 {
        assert(1 * qq == qq) by (nonlinear_arith);
    } else {
        lemma_num_strings_add(a, (p - 1) as nat, q);
        let rest = num_strings(a, (p - 1) as nat);
        assert(a * (rest * qq) == (a * rest) * qq) by (nonlinear_arith);
    }
}

/// The candidate at full-space index `u * Q + n` (with `Q` the number of
/// suffixes) is the `u`-th prefix followed by the `n`-th suffix.
pub proof fn lemma_candidate_split(alpha: Seq<char>, p: nat, q: nat, u: nat, n: nat)
    requires
        alpha.len() > 0,
        n < num_strings(alpha.len(), q),
    ensures
        nth_string(alpha, p + q, u * num_strings(alpha.len(), q) + n) == nth_string(alpha, p, u)
            + nth_string(alpha, q, n),
    decreases q,
{
    let a = alpha.len();
    if q == 0 {
        assert(u * 1 + n == u) by (nonlinear_arith)
            requires
                n == 0,
        ;
        assert(nth_string(alpha, p, u) + nth_string(alpha, 0, n) =~= nth_string(alpha, p, u));
    } else {
        let qq = num_strings(a, (q - 1) as nat);
        let m = u * num_strings(a, q) + n;
        let np = n / a;
        let r = n % a;
        assert(num_strings(a, q) == a * qq);
        assert(n == a * np + r) by {
            vstd::arithmetic::div_mod::lemma_fundamental_div_mod(n as int, a as int);
        };
        assert(m == a * (u * qq + np) + r) by (nonlinear_arith)
            requires
                m == u * (a * qq) + (a * np + r),
        ;
        assert(m as int == a as int * (u * qq + np) as int + r as int);
        lemma_div_multiples_vanish_fancy((u * qq + np) as int, r as int, a as int);
        assert(m / a == u * qq + np);
        lemma_mod_multiples_vanish((u * qq + np) as int, r as int, a as int);
        vstd::arithmetic::div_mod::lemma_small_mod(r, a);
        assert(m % a == r);
        lemma_multiply_divide_lt(n as int, a as int, qq as int);
        assert(np < qq);
        lemma_candidate_split(alpha, p, (q - 1) as nat, u, np);
        assert(nth_string(alpha, p + q, m) == nth_string(alpha, (p + q - 1) as nat, m / a).push(
            alpha[(m % a) as int],
        ));
        assert((nth_string(alpha, p, u) + nth_string(alpha, (q - 1) as nat, np)).push(
            alpha[r as int],
        ) =~= nth_string(alpha, p, u) + nth_string(alpha, (q - 1) as nat, np).push(
            alpha[r as int],
        ));
    }
}

/// Within one block of `Q` consecutive full-space indices, the matches of
/// the full enumeration are the matches already collected before the
/// block plus the matches of the block's own unit.
proof fn lemma_matches_block(
    alpha: Seq<char>,
    p: nat,
    q: nat,
    targets: Set<u32>,
    u: nat,
    j: nat,
)
    requires
        alpha.len() > 0,
        j <= num_strings(alpha.len(), q),
    ensures
        unit_matches_upto(
            alpha,
            Seq::empty(),
            p + q,
            targets,
            u * num_strings(alpha.len(), q) + j,
        ) == unit_matches_upto(alpha, Seq::empty(), p + q, targets, u * num_strings(alpha.len(), q))
            + unit_matches_upto(alpha, nth_string(alpha, p, u), q, targets, j),
    decreases j,
{
    let qq = num_strings(alpha.len(), q);
    let base = u * qq;
    if j == 0 {
        assert(unit_matches_upto(alpha, Seq::empty(), p + q, targets, base)
            + unit_matches_upto(alpha, nth_string(alpha, p, u), q, targets, 0)
            =~= unit_matches_upto(alpha, Seq::empty(), p + q, targets, base));
    } else {
        lemma_matches_block(alpha, p, q, targets, u, (j - 1) as nat);
        lemma_candidate_split(alpha, p, q, u, (j - 1) as nat);
        let cand = unit_candidate(alpha, Seq::empty(), p + q, (base + j - 1) as nat);
        assert(cand =~= nth_string(alpha, p + q, (base + j - 1) as nat));
        assert(cand == unit_candidate(alpha, nth_string(alpha, p, u), q, (j - 1) as nat));
        let before = unit_matches_upto(alpha, Seq::empty(), p + q, targets, base);
        let part = unit_matches_upto(alpha, nth_string(alpha, p, u), q, targets, (j - 1) as nat);
        if targets.contains(crc32_spec(cand)) {
            assert((before + part).push((cand, crc32_spec(cand))) =~= before + part.push(
                (cand, crc32_spec(cand)),
            ));
        }
    }
}

/// The matches of the first `u` work units, laid end to end in unit
/// order.
pub open spec fn units_matches_upto(
    alpha: Seq<char>,
    p: nat,
    q: nat,
    targets: Set<u32>,
    u: nat,
) -> Seq<(Seq<char>, u32)>
    decreases u,
{
    if u == 0 {
        Seq::empty()
    } else {
        units_matches_upto(alpha, p, q, targets, (u - 1) as nat) + unit_matches(
            alpha,
            nth_string(alpha, p, (u - 1) as nat),
            q,
            targets,
        )
    }
}

proof fn lemma_units_decompose(alpha: Seq<char>, p: nat, q: nat, targets: Set<u32>, u: nat)
    requires
        alpha.len() > 0,
    ensures
        unit_matches_upto(
            alpha,
            Seq::empty(),
            p + q,
            targets,
            u * num_strings(alpha.len(), q),
        ) == units_matches_upto(alpha, p, q, targets, u),
    decreases u,
{
    let qq = num_strings(alpha.len(), q);
    if u == 0 {
        assert(0 * qq == 0) by (nonlinear_arith);
    } else {
        lemma_units_decompose(alpha, p, q, targets, (u - 1) as nat);
        assert(u * qq == (u - 1) as nat * qq + qq) by (nonlinear_arith)
            requires
                u >= 1,
        ;
        lemma_matches_block(alpha, p, q, targets, (u - 1) as nat, qq);
    }
}

/// Partitioning is lossless: the matches of the whole search are exactly
/// the matches of the work units of prefix length `p`, laid end to end in
/// unit order.
pub proof fn lemma_search_decomposition(alpha: Seq<char>, p: nat, q: nat, targets: Set<u32>)
    requires
        alpha.len() > 0,
    ensures
        all_matches(alpha, p + q, targets) == units_matches_upto(
            alpha,
            p,
            q,
            targets,
            num_strings(alpha.len(), p),
        ),
{
    let a = alpha.len();
    lemma_num_strings_add(a, p, q);
    lemma_units_decompose(alpha, p, q, targets, num_strings(a, p));
}

/// Run one work unit: enumerate every candidate that extends `prefix` by
/// `suffix_len` symbols, checksum each, and collect exactly those whose
/// checksum is in the target set.
pub fn search_unit(
    alpha: &Vec<char>,
    prefix: &Vec<char>,
    suffix_len: usize,
    table: &CrcTable,
    targets: &TargetSet,
) -> (r: Vec<Match>)
    requires
        alpha@.len() > 0,
        num_strings(alpha@.len(), suffix_len as nat) <= usize::MAX,
        table.wf(),
        targets.wf(),
    ensures
        r@.map_values(|m: Match| m@) == unit_matches(
            alpha@,
            prefix@,
            suffix_len as nat,
            targets@,
        ),
{
    let count = match checked_num_strings(alpha.len(), suffix_len) {
        Some(c) => c,
        None => {
            proof {
                assert(false);
            }
            0
        },
    };
    let mut out: Vec<Match> = Vec::new();
    let mut n: usize = 0;
    while n < count
        invariant
            n <= count,
            count == num_strings(alpha@.len(), suffix_len as nat),
            alpha@.len() > 0,
            table.wf(),
            targets.wf(),
            out@.map_values(|m: Match| m@) == unit_matches_upto(
                alpha@,
                prefix@,
                suffix_len as nat,
                targets@,
                n as nat,
            ),
        decreases count - n,
    {
        let suffix = build_string(alpha, suffix_len, n);
        let mut cand: Vec<char> = Vec::new();
        append_chars(&mut cand, prefix);
        append_chars(&mut cand, &suffix);
        proof {
            assert(cand@ =~= unit_candidate(alpha@, prefix@, suffix_len as nat, n as nat));
        }
        let crc = crc32_chars(&cand, table);
        let ghost prev = out@.map_values(|m: Match| m@);
        if targets.contains(crc) {
            let m = Match { text: cand, crc };
            out.push(m);
            proof {
                assert(out@.map_values(|m: Match| m@) =~= prev.push(
                    (unit_candidate(alpha@, prefix@, suffix_len as nat, n as nat), crc),
                ));
            }
        }
        n = n + 1;
    }
    out
}

/// Run the whole search sequentially: build every work unit of prefix
/// length `prefix_len` and run them in unit order.  A caller that farms
/// the units out to parallel workers instead obtains the same matches up
/// to order (`lemma_schedule_independent`).
pub fn search_all(
    alpha: &Vec<char>,
    total_len: usize,
    prefix_len: usize,
    table: &CrcTable,
    targets: &TargetSet,
) -> (r: Vec<Match>)
    requires
        alpha@.len() > 0,
        prefix_len <= total_len,
        num_strings(alpha@.len(), total_len as nat) <= usize::MAX,
        table.wf(),
        targets.wf(),
    ensures
        r@.map_values(|m: Match| m@) == all_matches(alpha@, total_len as nat, targets@),
{
    let ghost a = alpha@.len();
    let ghost p = prefix_len as nat;
    let suffix_len = total_len - prefix_len;
    let ghost q = suffix_len as nat;
    proof {
        lemma_num_strings_monotone(a, p, total_len as nat);
        lemma_num_strings_add(a, p, q);
        lemma_num_strings_pos(a, p);
        assert(num_strings(a, q) <= num_strings(a, p) * num_strings(a, q)) by (nonlinear_arith)
            requires
                num_strings(a, p) >= 1,
                num_strings(a, q) >= 0,
        ;
    }
    let units = match checked_num_strings(alpha.len(), prefix_len) {
        Some(c) => c,
        None => {
            proof {
                assert(false);
            }
            0
        },
    };
    let mut out: Vec<Match> = Vec::new();
    let mut u: usize = 0;
    while u < units
        invariant
            u <= units,
            a == alpha@.len(),
            a > 0,
            p == prefix_len as nat,
            q == suffix_len as nat,
            units == num_strings(a, p),
            num_strings(a, q) <= usize::MAX,
            table.wf(),
            targets.wf(),
            out@.map_values(|m: Match| m@) == units_matches_upto(alpha@, p, q, targets@, u as nat),
        decreases units - u,
    {
        let prefix = build_string(alpha, prefix_len, u);
        let mut ms = search_unit(alpha, &prefix, suffix_len, table, targets);
        let ghost sofar = out@.map_values(|m: Match| m@);
        let ghost found = ms@.map_values(|m: Match| m@);
        out.append(&mut ms);
        proof {
            assert(out@.map_values(|m: Match| m@) =~= sofar + found);
        }
        u = u + 1;
    }
    proof {
        lemma_search_decomposition(alpha@, p, q, targets@);
        assert(p + q == total_len as nat);
    }
    out
}

/// Every enumerated candidate lies in the search space.
pub proof fn lemma_nth_string_in_space(alpha: Seq<char>, l: nat, n: nat)
    requires
        alpha.len() > 0,
    ensures
        in_space(alpha, l, nth_string(alpha, l, n)),
    decreases l,
{
    if l > 0 {
        let a = alpha.len();
        lemma_nth_string_in_space(alpha, (l - 1) as nat, n / a);
        let s = nth_string(alpha, (l - 1) as nat, n / a);
        let c = alpha[(n % a) as int];
        assert(((n % a) as int) < alpha.len());
        assert(alpha.contains(c));
        assert forall|i: int| 0 <= i < s.push(c).len() implies alpha.contains(s.push(c)[i]) by {
            if i < s.len() {
                assert(s.push(c)[i] == s[i]);
            } else {
                assert(s.push(c)[i] == c);
            }
        }
    }
}

/// Over a duplicate-free alphabet the enumeration never repeats: distinct
/// indices give distinct candidates.
pub proof fn lemma_nth_string_injective(alpha: Seq<char>, l: nat, n1: nat, n2: nat)
    requires
        alpha.len() > 0,
        alpha.no_duplicates(),
        n1 < num_strings(alpha.len(), l),
        n2 < num_strings(alpha.len(), l),
        nth_string(alpha, l, n1) == nth_string(alpha, l, n2),
    ensures
        n1 == n2,
    decreases l,
{
    let a = alpha.len();
    if l == 0 {
        assert(num_strings(a, 0) == 1);
    } else {
        let rest = num_strings(a, (l - 1) as nat);
        assert(num_strings(a, l) == a * rest);
        let s1 = nth_string(alpha, (l - 1) as nat, n1 / a);
        let s2 = nth_string(alpha, (l - 1) as nat, n2 / a);
        let c1 = alpha[(n1 % a) as int];
        let c2 = alpha[(n2 % a) as int];
        assert(s1.push(c1) == s2.push(c2));
        assert(s1.push(c1).len() == s2.push(c2).len());
        assert(c1 == s1.push(c1)[s1.len() as int] && c2 == s2.push(c2)[s2.len() as int]);
        assert(c1 == c2);
        assert(n1 % a == n2 % a);
        assert(s1 =~= s2) by {
            assert forall|i: int| 0 <= i < s1.len() implies s1[i] == s2[i] by {
                assert(s1[i] == s1.push(c1)[i] && s2[i] == s2.push(c2)[i]);
            }
        }
        lemma_multiply_divide_lt(n1 as int, a as int, rest as int);
        lemma_multiply_divide_lt(n2 as int, a as int, rest as int);
        lemma_nth_string_injective(alpha, (l - 1) as nat, n1 / a, n2 / a);
        lemma_fundamental_div_mod(n1 as int, a as int);
        lemma_fundamental_div_mod(n2 as int, a as int);
    }
}

/// The position of `c` in the alphabet.
pub open spec fn char_index(alpha: Seq<char>, c: char) -> int {
    choose|i: int| 0 <= i < alpha.len() && alpha[i] == c
}

/// The enumeration index of a string of the space: its digits read back
/// as a base-`alpha.len()` numeral.
pub open spec fn string_index(alpha: Seq<char>, s: Seq<char>) -> nat
    decreases s.len(),
{
    if s.len() == 0 {
        0
    } else {
        string_index(alpha, s.drop_last()) * alpha.len() + char_index(alpha, s.last()) as nat
    }
}

/// No omissions: every string of the space is enumerated, at the index
/// its digits spell.
pub proof fn lemma_enumeration_complete(alpha: Seq<char>, l: nat, s: Seq<char>)
    requires
        alpha.len() > 0,
        in_space(alpha, l, s),
    ensures
        string_index(alpha, s) < num_strings(alpha.len(), l),
        nth_string(alpha, l, string_index(alpha, s)) == s,
    decreases l,
{
    let a = alpha.len();
    if l == 0 {
        assert(nth_string(alpha, 0, 0) =~= s);
    } else {
        let d = s.drop_last();
        assert(in_space(alpha, (l - 1) as nat, d)) by {
            assert forall|i: int| 0 <= i < d.len() implies alpha.contains(d[i]) by {
                assert(d[i] == s[i]);
            }
        }
        lemma_enumeration_complete(alpha, (l - 1) as nat, d);
        let rest = num_strings(a, (l - 1) as nat);
        let ip = string_index(alpha, d);
        assert(alpha.contains(s.last())) by {
            assert(s[s.len() - 1] == s.last());
        }
        let ci = char_index(alpha, s.last());
        assert(0 <= ci < a && alpha[ci] == s.last());
        let idx = string_index(alpha, s);
        assert(idx == ip * a + ci);
        assert(idx < rest * a) by (nonlinear_arith)
            requires
                idx == ip * a + ci,
                ip < rest,
                0 <= ci < a,
        ;
        assert(num_strings(a, l) == a * rest);
        assert(rest * a == a * rest) by (nonlinear_arith);
        assert(idx as int == a as int * ip as int + ci);
        lemma_div_multiples_vanish_fancy(ip as int, ci, a as int);
        assert(idx / a == ip);
        lemma_mod_multiples_vanish(ip as int, ci, a as int);
        lemma_small_mod(ci as nat, a);
        assert(idx % a == ci as nat);
        assert(nth_string(alpha, l, idx) == nth_string(alpha, (l - 1) as nat, ip).push(
            alpha[ci],
        ));
        assert(d.push(s.last()) =~= s);
    }
}

/// The full enumeration of the search space for length `l`: candidate `n`
/// is the `n`-th string.
pub open spec fn full_enumeration(alpha: Seq<char>, l: nat) -> Seq<Seq<char>> {
    Seq::new(num_strings(alpha.len(), l), |n: int| nth_string(alpha, l, n as nat))
}

/// Work units tile the space: the `n`-th candidate of unit `u` is the
/// candidate at full-space index `u * Q + n` (with `Q` the number of
/// suffixes per unit), and that index is in range.  Distinct
/// (unit, suffix) pairs therefore reach distinct full-space indices, and
/// every full-space index is reached: no overlap and no gap.
pub proof fn lemma_unit_tiles(alpha: Seq<char>, p: nat, q: nat, u: nat, n: nat)
    requires
        alpha.len() > 0,
        u < num_strings(alpha.len(), p),
        n < num_strings(alpha.len(), q),
    ensures
        u * num_strings(alpha.len(), q) + n < num_strings(alpha.len(), p + q),
        unit_candidate(alpha, nth_string(alpha, p, u), q, n) == nth_string(
            alpha,
            p + q,
            u * num_strings(alpha.len(), q) + n,
        ),
{
    let a = alpha.len();
    let pp = num_strings(a, p);
    let qq = num_strings(a, q);
    lemma_num_strings_add(a, p, q);
    lemma_num_strings_pos(a, q);
    assert(u * qq + n < pp * qq) by (nonlinear_arith)
        requires
            u < pp,
            n < qq,
            qq >= 1,
    ;
    lemma_candidate_split(alpha, p, q, u, n);
    assert(unit_candidate(alpha, nth_string(alpha, p, u), q, n) =~= nth_string(alpha, p, u)
        + nth_string(alpha, q, n));
}

/// Partitioning completeness: the full enumeration of length `l` holds
/// exactly `num_strings` candidates, each a string of the space; over a
/// duplicate-free alphabet it repeats none; and every string of the space
/// occurs in it.  Together with `lemma_unit_tiles` this says the union of
/// all work units is exactly the space, with no duplicates and no
/// omissions.
pub proof fn lemma_partition_complete(alpha: Seq<char>, l: nat)
    requires
        alpha.len() > 0,
        alpha.no_duplicates(),
    ensures
        full_enumeration(alpha, l).len() == num_strings(alpha.len(), l),
        forall|m: int|
            0 <= m < num_strings(alpha.len(), l) ==> in_space(
                alpha,
                l,
                #[trigger] full_enumeration(alpha, l)[m],
            ),
        full_enumeration(alpha, l).no_duplicates(),
        forall|s: Seq<char>| #[trigger]
            in_space(alpha, l, s) ==> full_enumeration(alpha, l).contains(s),
{
    let a = alpha.len();
    assert forall|m: int| 0 <= m < num_strings(a, l) implies in_space(
        alpha,
        l,
        #[trigger] full_enumeration(alpha, l)[m],
    ) by {
        lemma_nth_string_in_space(alpha, l, m as nat);
    }
    assert(full_enumeration(alpha, l).no_duplicates()) by {
        assert forall|i: int, j: int|
            0 <= i < num_strings(a, l) && 0 <= j < num_strings(a, l) && i != j implies #[trigger]
            full_enumeration(alpha, l)[i] != #[trigger] full_enumeration(alpha, l)[j] by {
            if full_enumeration(alpha, l)[i] == full_enumeration(alpha, l)[j] {
                lemma_nth_string_injective(alpha, l, i as nat, j as nat);
            }
        }
    }
    assert forall|s: Seq<char>| #[trigger] in_space(alpha, l, s) implies full_enumeration(
        alpha,
        l,
    ).contains(s) by {
        lemma_enumeration_complete(alpha, l, s);
        let idx = string_index(alpha, s);
        assert(full_enumeration(alpha, l)[idx as int] == s);
    }
}

/// The combined matches of a list of work units run one after another, as
/// a multiset: order within the collection is deliberately forgotten.
pub open spec fn matches_of_units(
    alpha: Seq<char>,
    p: nat,
    q: nat,
    targets: Set<u32>,
    units: Seq<nat>,
) -> Multiset<(Seq<char>, u32)>
    decreases units.len(),
{
    if units.len() == 0 {
        Multiset::empty()
    } else {
        matches_of_units(alpha, p, q, targets, units.drop_last()).add(
            unit_matches(alpha, nth_string(alpha, p, units.last()), q, targets).to_multiset(),
        )
    }
}

proof fn lemma_matches_of_units_remove(
    alpha: Seq<char>,
    p: nat,
    q: nat,
    targets: Set<u32>,
    units: Seq<nat>,
    k: int,
)
    requires
        0 <= k < units.len(),
    ensures
        matches_of_units(alpha, p, q, targets, units) == matches_of_units(
            alpha,
            p,
            q,
            targets,
            units.remove(k),
        ).add(unit_matches(alpha, nth_string(alpha, p, units[k]), q, targets).to_multiset()),
    decreases units.len(),
{
    let m = |i: nat| unit_matches(alpha, nth_string(alpha, p, i), q, targets).to_multiset();
    if k == units.len() - 1 {
        assert(units.remove(k) =~= units.drop_last());
    } else {
        let d = units.drop_last();
        lemma_matches_of_units_remove(alpha, p, q, targets, d, k);
        assert(units.remove(k).drop_last() =~= d.remove(k));
        assert(units.remove(k).last() == units.last());
        assert(matches_of_units(alpha, p, q, targets, units) =~= matches_of_units(
            alpha,
            p,
            q,
            targets,
            units.remove(k),
        ).add(m(units[k])));
    }
}

/// Scheduling independence: however a worker pool of whatever size
/// interleaves the work units — any order, any assignment, each unit run
/// exactly once — the combined collection of matches is the same.
pub proof fn lemma_matches_of_units_permutation(
    alpha: Seq<char>,
    p: nat,
    q: nat,
    targets: Set<u32>,
    o1: Seq<nat>,
    o2: Seq<nat>,
)
    requires
        o1.to_multiset() == o2.to_multiset(),
    ensures
        matches_of_units(alpha, p, q, targets, o1) == matches_of_units(alpha, p, q, targets, o2),
    decreases o1.len(),
{
    broadcast use vstd::seq_lib::group_to_multiset_ensures;

    if o1.len() == 0 {
        assert(o1.to_multiset().len() == 0);
        assert(o2.to_multiset().len() == 0);
        assert(o2.len() == 0);
    } else {
        let x = o1.last();
        assert(o1.contains(x));
        assert(o1.to_multiset().count(x) > 0);
        assert(o2.contains(x));
        let k = choose|k: int| 0 <= k < o2.len() && o2[k] == x;
        lemma_matches_of_units_remove(alpha, p, q, targets, o2, k);
        assert(o1.drop_last() =~= o1.remove(o1.len() - 1));
        assert(o1.drop_last().to_multiset() == o1.to_multiset().remove(x));
        assert(o2.remove(k).to_multiset() == o2.to_multiset().remove(x));
        lemma_matches_of_units_permutation(alpha, p, q, targets, o1.drop_last(), o2.remove(k));
    }
}

/// The unit order of the sequential search: unit `i` runs `i`-th.
pub open spec fn sequential_order(unit_count: nat) -> Seq<nat> {
    Seq::new(unit_count, |i: int| i as nat)
}

proof fn lemma_sequential_order_matches(alpha: Seq<char>, p: nat, q: nat, targets: Set<u32>, u: nat)
    requires
        alpha.len() > 0,
    ensures
        matches_of_units(alpha, p, q, targets, sequential_order(u)) == units_matches_upto(
            alpha,
            p,
            q,
            targets,
            u,
        ).to_multiset(),
    decreases u,
{
    if u == 0 {
        let e = units_matches_upto(alpha, p, q, targets, 0);
        broadcast use vstd::seq_lib::group_to_multiset_ensures;
        broadcast use vstd::multiset::group_multiset_axioms;
        assert(e.to_multiset().len() == 0);
        vstd::multiset::lemma_multiset_empty_len(e.to_multiset());
        assert(e.to_multiset() =~= Multiset::<(Seq<char>, u32)>::empty());
        assert(e.to_multiset() == Multiset::<(Seq<char>, u32)>::empty());
        assert(sequential_order(0).len() == 0);
        assert(matches_of_units(alpha, p, q, targets, sequential_order(0)) == Multiset::<(
            Seq<char>,
            u32,
        )>::empty());
    } else {
        broadcast use vstd::multiset::group_multiset_axioms;
        lemma_sequential_order_matches(alpha, p, q, targets, (u - 1) as nat);
        assert(sequential_order(u).drop_last() =~= sequential_order((u - 1) as nat));
        assert(sequential_order(u).last() == (u - 1) as nat);
        lemma_multiset_commutative(
            units_matches_upto(alpha, p, q, targets, (u - 1) as nat),
            unit_matches(alpha, nth_string(alpha, p, (u - 1) as nat), q, targets),
        );
        assert(units_matches_upto(alpha, p, q, targets, u).to_multiset() == units_matches_upto(
            alpha,
            p,
            q,
            targets,
            (u - 1) as nat,
        ).to_multiset().add(
            unit_matches(alpha, nth_string(alpha, p, (u - 1) as nat), q, targets).to_multiset(),
        ));
    }
}

/// Running the same search with a worker pool of size one or of any
/// larger size yields the identical collection of matches: whatever order
/// the pool completes the units in — `order` is any permutation of the
/// unit indices — the matches are, as a multiset, exactly those of the
/// sequential full search.
pub proof fn lemma_schedule_independent(
    alpha: Seq<char>,
    p: nat,
    q: nat,
    targets: Set<u32>,
    order: Seq<nat>,
)
    requires
        alpha.len() > 0,
        order.to_multiset() == sequential_order(num_strings(alpha.len(), p)).to_multiset(),
    ensures
        matches_of_units(alpha, p, q, targets, order) == all_matches(
            alpha,
            p + q,
            targets,
        ).to_multiset(),
{
    let pp = num_strings(alpha.len(), p);
    lemma_matches_of_units_permutation(alpha, p, q, targets, order, sequential_order(pp));
    lemma_sequential_order_matches(alpha, p, q, targets, pp);
    lemma_search_decomposition(alpha, p, q, targets);
}

} // verus!
