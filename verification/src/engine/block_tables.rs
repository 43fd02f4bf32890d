//! What the two tables of the block-hash matcher hold, stated over the
//! patterns, and the functions that build them.

use vstd::prelude::*;
use rayon::iter::{IntoParallelRefIterator, ParallelIterator};
use crate::engine::tables::{block_hash, hash_str, list_at, ShiftTable, SuffixTable};
use crate::text::{rows, string_of_range};

verus! {

/// Pattern `k` has a block of `b` characters at offset `i` whose hash is `h`.
pub open spec fn hits(pats: Seq<Seq<char>>, b: int, h: u64, k: int, i: int) -> bool {
    &&& 0 <= k < pats.len()
    &&& 0 <= i
    &&& i + b <= pats[k].len()
    &&& block_hash(pats[k].subrange(i, i + b)) == h
}

/// Distance from the end of the block at offset `i` to the end of pattern `k`.
pub open spec fn window_shift(pats: Seq<Seq<char>>, b: int, k: int, i: int) -> int {
    pats[k].len() - i - b
}

/// The block position `(k, i)` comes before `(kk, ii)` in pattern-major order.
pub open spec fn seen(k: int, i: int, kk: int, ii: int) -> bool {
    k < kk || (k == kk && i < ii)
}

/// Some block of some pattern hashes to `h`.
pub open spec fn shift_known(pats: Seq<Seq<char>>, b: int, h: u64) -> bool {
    exists|k: int, i: int| #[trigger] hits(pats, b, h, k, i)
}

/// `d` is the least distance to a pattern's end over all blocks that hash
/// to `h`.
pub open spec fn is_min_shift(pats: Seq<Seq<char>>, b: int, h: u64, d: int) -> bool {
    &&& exists|k: int, i: int| #[trigger] hits(pats, b, h, k, i) && window_shift(pats, b, k, i) == d
    &&& forall|k: int, i: int| #[trigger] hits(pats, b, h, k, i) ==> d <= window_shift(pats, b, k, i)
}

/// `m` is the shift table of `pats` for block size `b`.
pub open spec fn shift_table_ok(m: Map<u64, usize>, pats: Seq<Seq<char>>, b: int) -> bool {
    forall|h: u64|
        (#[trigger] m.contains_key(h) <==> shift_known(pats, b, h)) && (m.contains_key(h)
            ==> is_min_shift(pats, b, h, m[h] as int))
}

/// The hashes that have an entry in the shift table of `pats`.
pub open spec fn shift_keys(pats: Seq<Seq<char>>, b: int) -> Set<u64> {
    Set::new(|h: u64| shift_known(pats, b, h))
}

spec fn shift_known_upto(pats: Seq<Seq<char>>, b: int, h: u64, kk: int, ii: int) -> bool {
    exists|k: int, i: int| #[trigger] hits(pats, b, h, k, i) && seen(k, i, kk, ii)
}

spec fn is_min_shift_upto(pats: Seq<Seq<char>>, b: int, h: u64, d: int, kk: int, ii: int) -> bool {
    &&& exists|k: int, i: int|
        #[trigger] hits(pats, b, h, k, i) && seen(k, i, kk, ii) && window_shift(pats, b, k, i) == d
    &&& forall|k: int, i: int|
        #[trigger] hits(pats, b, h, k, i) && seen(k, i, kk, ii) ==> d <= window_shift(pats, b, k, i)
}

spec fn shift_table_upto(m: Map<u64, usize>, pats: Seq<Seq<char>>, b: int, kk: int, ii: int) -> bool {
    forall|h: u64|
        (#[trigger] m.contains_key(h) <==> shift_known_upto(pats, b, h, kk, ii)) && (
        m.contains_key(h) ==> is_min_shift_upto(pats, b, h, m[h] as int, kk, ii))
}

proof fn lemma_shift_step(
    m: Map<u64, usize>,
    pats: Seq<Seq<char>>,
    b: int,
    kk: int,
    ii: int,
    h0: u64,
    s0: usize,
)
    requires
        shift_table_upto(m, pats, b, kk, ii),
        hits(pats, b, h0, kk, ii),
        s0 == window_shift(pats, b, kk, ii),
    ensures
        m.contains_key(h0) && m[h0] <= s0 ==> shift_table_upto(m, pats, b, kk, ii + 1),
        !(m.contains_key(h0) && m[h0] <= s0) ==> shift_table_upto(
            m.insert(h0, s0),
            pats,
            b,
            kk,
            ii + 1,
        ),
{
    let keep = m.contains_key(h0) && m[h0] <= s0;
    let m2 = if keep {
        m
    } else {
        m.insert(h0, s0)
    };
    assert forall|h: u64|
        (#[trigger] m2.contains_key(h) <==> shift_known_upto(pats, b, h, kk, ii + 1)) && (
        m2.contains_key(h) ==> is_min_shift_upto(pats, b, h, m2[h] as int, kk, ii + 1)) by {
        assert(m.contains_key(h) <==> shift_known_upto(pats, b, h, kk, ii));
        if h == h0 {
            assert(hits(pats, b, h, kk, ii) && seen(kk, ii, kk, ii + 1));
            assert(m2.contains_key(h));
            if keep {
                assert(is_min_shift_upto(pats, b, h, m[h] as int, kk, ii));
                let (k1, i1) = choose|k: int, i: int|
                    #[trigger] hits(pats, b, h, k, i) && seen(k, i, kk, ii) && window_shift(
                        pats,
                        b,
                        k,
                        i,
                    ) == m[h] as int;
                assert(hits(pats, b, h, k1, i1) && seen(k1, i1, kk, ii + 1));
                assert forall|k: int, i: int| #[trigger]
                    hits(pats, b, h, k, i) && seen(k, i, kk, ii + 1) implies m[h] as int
                    <= window_shift(pats, b, k, i) by {
                    if seen(k, i, kk, ii) {
                    } else {
                        assert(k == kk && i == ii);
                    }
                }
            } else {
                assert(window_shift(pats, b, kk, ii) == s0 as int);
                assert forall|k: int, i: int| #[trigger]
                    hits(pats, b, h, k, i) && seen(k, i, kk, ii + 1) implies s0 as int
                    <= window_shift(pats, b, k, i) by {
                    if seen(k, i, kk, ii) {
                        assert(shift_known_upto(pats, b, h, kk, ii));
                        assert(is_min_shift_upto(pats, b, h, m[h] as int, kk, ii));
                    } else {
                        assert(k == kk && i == ii);
                    }
                }
            }
        } else {
            assert(m2.contains_key(h) == m.contains_key(h));
            if shift_known_upto(pats, b, h, kk, ii) {
                let (k1, i1) = choose|k: int, i: int|
                    #[trigger] hits(pats, b, h, k, i) && seen(k, i, kk, ii);
                assert(hits(pats, b, h, k1, i1) && seen(k1, i1, kk, ii + 1));
            }
            if shift_known_upto(pats, b, h, kk, ii + 1) {
                let (k1, i1) = choose|k: int, i: int|
                    #[trigger] hits(pats, b, h, k, i) && seen(k, i, kk, ii + 1);
                assert(seen(k1, i1, kk, ii));
                assert(hits(pats, b, h, k1, i1) && seen(k1, i1, kk, ii));
            }
            if m.contains_key(h) {
                assert(is_min_shift_upto(pats, b, h, m[h] as int, kk, ii));
                let (k1, i1) = choose|k: int, i: int|
                    #[trigger] hits(pats, b, h, k, i) && seen(k, i, kk, ii) && window_shift(
                        pats,
                        b,
                        k,
                        i,
                    ) == m[h] as int;
                assert(hits(pats, b, h, k1, i1) && seen(k1, i1, kk, ii + 1));
                assert forall|k: int, i: int| #[trigger]
                    hits(pats, b, h, k, i) && seen(k, i, kk, ii + 1) implies m[h] as int
                    <= window_shift(pats, b, k, i) by {
                    assert(seen(k, i, kk, ii));
                }
            }
        }
    }
}

/// Moving the frontier from `(kk, ii)` to `(kk2, ii2)` changes nothing when
/// both frontiers have the same blocks behind them.
proof fn lemma_shift_frontier(
    m: Map<u64, usize>,
    pats: Seq<Seq<char>>,
    b: int,
    kk: int,
    ii: int,
    kk2: int,
    ii2: int,
)
    requires
        shift_table_upto(m, pats, b, kk, ii),
        forall|h: u64, k: int, i: int| #[trigger]
            hits(pats, b, h, k, i) ==> (seen(k, i, kk, ii) <==> seen(k, i, kk2, ii2)),
    ensures
        shift_table_upto(m, pats, b, kk2, ii2),
{
    assert forall|h: u64|
        (#[trigger] m.contains_key(h) <==> shift_known_upto(pats, b, h, kk2, ii2)) && (
        m.contains_key(h) ==> is_min_shift_upto(pats, b, h, m[h] as int, kk2, ii2)) by {
        assert(m.contains_key(h) <==> shift_known_upto(pats, b, h, kk, ii));
        if shift_known_upto(pats, b, h, kk, ii) {
            let (k1, i1) = choose|k: int, i: int|
                #[trigger] hits(pats, b, h, k, i) && seen(k, i, kk, ii);
            assert(hits(pats, b, h, k1, i1) && seen(k1, i1, kk2, ii2));
        }
        if shift_known_upto(pats, b, h, kk2, ii2) {
            let (k1, i1) = choose|k: int, i: int|
                #[trigger] hits(pats, b, h, k, i) && seen(k, i, kk2, ii2);
            assert(hits(pats, b, h, k1, i1) && seen(k1, i1, kk, ii));
        }
        if m.contains_key(h) {
            assert(is_min_shift_upto(pats, b, h, m[h] as int, kk, ii));
            let (k1, i1) = choose|k: int, i: int|
                #[trigger] hits(pats, b, h, k, i) && seen(k, i, kk, ii) && window_shift(
                    pats,
                    b,
                    k,
                    i,
                ) == m[h] as int;
            assert(hits(pats, b, h, k1, i1) && seen(k1, i1, kk2, ii2));
        }
    }
}

proof fn lemma_shift_done(m: Map<u64, usize>, pats: Seq<Seq<char>>, b: int)
    requires
        shift_table_upto(m, pats, b, pats.len() as int, 0),
    ensures
        shift_table_ok(m, pats, b),
{
    let n = pats.len() as int;
    assert forall|h: u64|
        (#[trigger] m.contains_key(h) <==> shift_known(pats, b, h)) && (m.contains_key(h)
            ==> is_min_shift(pats, b, h, m[h] as int)) by {
        assert(m.contains_key(h) <==> shift_known_upto(pats, b, h, n, 0));
        if shift_known_upto(pats, b, h, n, 0) {
            let (k1, i1) = choose|k: int, i: int|
                #[trigger] hits(pats, b, h, k, i) && seen(k, i, n, 0);
            assert(hits(pats, b, h, k1, i1));
        }
        if shift_known(pats, b, h) {
            let (k1, i1) = choose|k: int, i: int| #[trigger] hits(pats, b, h, k, i);
            assert(hits(pats, b, h, k1, i1) && seen(k1, i1, n, 0));
        }
        if m.contains_key(h) {
            assert(is_min_shift_upto(pats, b, h, m[h] as int, n, 0));
            let (k1, i1) = choose|k: int, i: int|
                #[trigger] hits(pats, b, h, k, i) && seen(k, i, n, 0) && window_shift(
                    pats,
                    b,
                    k,
                    i,
                ) == m[h] as int;
            assert(hits(pats, b, h, k1, i1) && window_shift(pats, b, k1, i1) == m[h] as int);
            assert forall|k: int, i: int| #[trigger] hits(pats, b, h, k, i) implies m[h] as int
                <= window_shift(pats, b, k, i) by {
                assert(seen(k, i, n, 0));
            }
        }
    }
}

/// Hash of the block of `b` characters of `p` that starts at offset `i`.
pub(crate) fn hash_window(p: &Vec<char>, i: usize, b: usize) -> (h: u64)
    requires
        i + b <= p.len(),
    ensures
        h == block_hash(p@.subrange(i as int, i + b)),
{
    let block = string_of_range(p, i, b);
    hash_str(block.as_str())
}

/// The shift table entries one pattern gives rise to: for every block of
/// `b` characters, its hash and its distance to the pattern's end.
pub open spec fn window_entries(p: Seq<char>, b: int) -> Seq<(u64, usize)> {
    if b < 0 || p.len() < b {
        Seq::empty()
    } else {
        Seq::new(
            (p.len() - b + 1) as nat,
            |i: int| (block_hash(p.subrange(i, i + b)), (p.len() - i - b) as usize),
        )
    }
}

/// The shift table entries of one pattern.
pub fn pattern_windows(p: &Vec<char>, b: usize) -> (r: Vec<(u64, usize)>)
    ensures
        r@ == window_entries(p@, b as int),
{
    let mut out: Vec<(u64, usize)> = Vec::new();
    let n = p.len();
    if n < b {
        return out;
    }
    let last = n - b;
    let mut i: usize = 0;
    while i <= last
        invariant_except_break
            i <= last,
            out@ == window_entries(p@, b as int).take(i as int),
        invariant
            last == n - b,
            n == p.len(),
        ensures
            out@ == window_entries(p@, b as int),
        decreases last + 1 - i,
    {
        let h = hash_window(p, i, b);
        out.push((h, n - i - b));
        assert(out@ =~= window_entries(p@, b as int).take(i + 1));
        if i == last {
            assert(window_entries(p@, b as int).take(i + 1) =~= window_entries(p@, b as int));
            break;
        }
        i += 1;
    }
    out
}

/// The shift table entries of every pattern, computed one pattern after the
/// other.
fn all_windows(pats: &Vec<Vec<char>>, b: usize) -> (r: Vec<Vec<(u64, usize)>>)
    ensures
        r@.len() == pats@.len(),
        forall|k: int| 0 <= k < pats@.len() ==> (#[trigger] r@[k])@ == window_entries(pats@[k]@, b as int),
{
    let mut out: Vec<Vec<(u64, usize)>> = Vec::new();
    let mut k: usize = 0;
    while k < pats.len()
        invariant
            k <= pats.len(),
            out@.len() == k,
            forall|j: int| 0 <= j < k ==> (#[trigger] out@[j])@ == window_entries(pats@[j]@, b as int),
        decreases pats.len() - k,
    {
        out.push(pattern_windows(&pats[k], b));
        k += 1;
    }
    out
}

/// `rayon`'s `par_iter().map(..).collect()` on a vector: the function is
/// applied to every element, on the threads of the pool, and the results are
/// stored in the order of the elements.
#[verifier::external_body]
fn all_windows_parallel(pats: &Vec<Vec<char>>, b: usize) -> (r: Vec<Vec<(u64, usize)>>)
    ensures
        r@.len() == pats@.len(),
        forall|k: int| 0 <= k < pats@.len() ==> (#[trigger] r@[k])@ == window_entries(pats@[k]@, b as int),
{
    pats.par_iter().map(|p| pattern_windows(p, b)).collect()
}

/// Merges the entries of all patterns into the shift table: entries with
/// the same hash keep the least distance.
fn merge_shift_entries(entries: &Vec<Vec<(u64, usize)>>, Ghost(pv): Ghost<Seq<Seq<char>>>, b: usize) -> (t:
    ShiftTable)
    requires
        entries@.len() == pv.len(),
        forall|k: int| 0 <= k < pv.len() ==> (#[trigger] entries@[k])@ == window_entries(pv[k], b as int),
    ensures
        shift_table_ok(t@, pv, b as int),
{
    let mut t = ShiftTable::new();
    let mut k: usize = 0;
    assert(shift_table_upto(t@, pv, b as int, 0, 0));
    while k < entries.len()
        invariant
            k <= entries@.len(),
            entries@.len() == pv.len(),
            forall|k: int| 0 <= k < pv.len() ==> (#[trigger] entries@[k])@ == window_entries(pv[k], b as int),
            shift_table_upto(t@, pv, b as int, k as int, 0),
        decreases entries.len() - k,
    {
        let row = &entries[k];
        assert(row@ == window_entries(pv[k as int], b as int));
        let mut i: usize = 0;
        while i < row.len()
            invariant
                i <= row@.len(),
                k < pv.len(),
                row@ == window_entries(pv[k as int], b as int),
                shift_table_upto(t@, pv, b as int, k as int, i as int),
            decreases row.len() - i,
        {
            let entry = row[i];
            let h = entry.0;
            let shift = entry.1;
            let ghost before = t@;
            proof {
                assert(row@[i as int] == window_entries(pv[k as int], b as int)[i as int]);
                assert(hits(pv, b as int, h, k as int, i as int));
                lemma_shift_step(before, pv, b as int, k as int, i as int, h, shift);
            }
            let keep = match t.get(h) {
                Some(v) => v <= shift,
                None => false,
            };
            if !keep {
                t.insert(h, shift);
            }
            i += 1;
        }
        proof {
            assert forall|h: u64, kk: int, ii: int| #[trigger] hits(pv, b as int, h, kk, ii) implies (
            seen(kk, ii, k as int, i as int) <==> seen(kk, ii, k + 1, 0)) by {
                if kk == k {
                    assert(ii + b <= pv[k as int].len());
                    assert(row@.len() == pv[k as int].len() - b + 1);
                }
            }
            lemma_shift_frontier(t@, pv, b as int, k as int, i as int, k + 1, 0);
        }
        k += 1;
    }
    proof {
        lemma_shift_done(t@, pv, b as int);
    }
    t
}

/// Builds the shift table of `pats` for block size `b`: every block of every
/// pattern is entered with its distance to the pattern's end, and blocks that
/// hash alike keep the least distance. With `parallel` the blocks are hashed
/// on the thread pool; the table is the same.
pub(crate) fn build_shift_table(pats: &Vec<Vec<char>>, b: usize, parallel: bool) -> (t: ShiftTable)
    ensures
        shift_table_ok(t@, rows(pats@), b as int),
{
    let entries = if parallel {
        all_windows_parallel(pats, b)
    } else {
        all_windows(pats, b)
    };
    merge_shift_entries(&entries, Ghost(rows(pats@)), b)
}

/// Pattern `k` is at least `b` long and its last `b` characters hash to `h`.
pub open spec fn ends_with_hash(pats: Seq<Seq<char>>, b: int, h: u64, k: int) -> bool {
    &&& 0 <= k < pats.len()
    &&& 0 <= b <= pats[k].len()
    &&& block_hash(pats[k].subrange(pats[k].len() - b, pats[k].len() as int)) == h
}

/// The indices below `n`, ascending, of the patterns whose trailing block
/// hashes to `h`.
pub open spec fn suffix_list(pats: Seq<Seq<char>>, b: int, h: u64, n: int) -> Seq<usize>
    decreases n,
{
    if n <= 0 {
        Seq::empty()
    } else if ends_with_hash(pats, b, h, n - 1) {
        suffix_list(pats, b, h, n - 1).push((n - 1) as usize)
    } else {
        suffix_list(pats, b, h, n - 1)
    }
}

/// `m` holds, for every hash, the candidates among the first `n` patterns,
/// and has no entry where there is no candidate.
pub open spec fn suffix_table_upto(m: Map<u64, Seq<usize>>, pats: Seq<Seq<char>>, b: int, n: int) -> bool {
    forall|h: u64|
        #![trigger m.contains_key(h)]
        #![trigger suffix_list(pats, b, h, n)]
        list_at(m, h) == suffix_list(pats, b, h, n) && (m.contains_key(h) <==> suffix_list(
            pats,
            b,
            h,
            n,
        ).len() > 0)
}

/// `m` is the suffix table of `pats` for block size `b`.
pub open spec fn suffix_table_ok(m: Map<u64, Seq<usize>>, pats: Seq<Seq<char>>, b: int) -> bool {
    suffix_table_upto(m, pats, b, pats.len() as int)
}

/// The hashes that have an entry in the suffix table of `pats`.
pub open spec fn suffix_keys(pats: Seq<Seq<char>>, b: int) -> Set<u64> {
    Set::new(|h: u64| suffix_list(pats, b, h, pats.len() as int).len() > 0)
}

/// Every candidate in a suffix list is the index of a pattern that ends in
/// a block with the list's hash, and every such pattern is in the list.
pub proof fn lemma_suffix_list(pats: Seq<Seq<char>>, b: int, h: u64, n: int)
    requires
        0 <= n <= pats.len(),
        n <= usize::MAX,
    ensures
        forall|j: int|
            0 <= j < suffix_list(pats, b, h, n).len() ==> ends_with_hash(
                pats,
                b,
                h,
                (#[trigger] suffix_list(pats, b, h, n)[j]) as int,
            ) && suffix_list(pats, b, h, n)[j] < n,
        forall|k: int|
            0 <= k < n && ends_with_hash(pats, b, h, k) ==> exists|j: int|
                0 <= j < suffix_list(pats, b, h, n).len() && #[trigger] suffix_list(
                    pats,
                    b,
                    h,
                    n,
                )[j] == k,
        forall|i: int, j: int|
            0 <= i < j < suffix_list(pats, b, h, n).len() ==> suffix_list(pats, b, h, n)[i]
                < suffix_list(pats, b, h, n)[j],
    decreases n,
{
    if n > 0 {
        lemma_suffix_list(pats, b, h, n - 1);
        let init = suffix_list(pats, b, h, n - 1);
        let full = suffix_list(pats, b, h, n);
        assert forall|k: int| 0 <= k < n && ends_with_hash(pats, b, h, k) implies exists|j: int|
            0 <= j < full.len() && #[trigger] full[j] == k by {
            if k == n - 1 {
                assert(full[full.len() - 1] == k);
            } else {
                let j = choose|j: int| 0 <= j < init.len() && #[trigger] init[j] == k;
                assert(full[j] == k);
            }
        }
    }
}

/// Hash of the last `b` characters of a pattern that is at least `b` long.
pub open spec fn tail_hash(p: Seq<char>, b: int) -> Option<u64> {
    if 0 <= b <= p.len() {
        Some(block_hash(p.subrange(p.len() - b, p.len() as int)))
    } else {
        None
    }
}

/// Hash of the last `b` characters of `p`, if `p` is that long.
pub fn pattern_tail(p: &Vec<char>, b: usize) -> (r: Option<u64>)
    ensures
        r == tail_hash(p@, b as int),
{
    if p.len() >= b {
        Some(hash_window(p, p.len() - b, b))
    } else {
        None
    }
}

/// The tail hash of every pattern, computed one pattern after the other.
fn all_tails(pats: &Vec<Vec<char>>, b: usize) -> (r: Vec<Option<u64>>)
    ensures
        r@.len() == pats@.len(),
        forall|k: int| 0 <= k < pats@.len() ==> #[trigger] r@[k] == tail_hash(pats@[k]@, b as int),
{
    let mut out: Vec<Option<u64>> = Vec::new();
    let mut k: usize = 0;
    while k < pats.len()
        invariant
            k <= pats.len(),
            out@.len() == k,
            forall|j: int| 0 <= j < k ==> #[trigger] out@[j] == tail_hash(pats@[j]@, b as int),
        decreases pats.len() - k,
    {
        out.push(pattern_tail(&pats[k], b));
        k += 1;
    }
    out
}

/// `rayon`'s `par_iter().map(..).collect()` on a vector: the function is
/// applied to every element, on the threads of the pool, and the results are
/// stored in the order of the elements.
#[verifier::external_body]
fn all_tails_parallel(pats: &Vec<Vec<char>>, b: usize) -> (r: Vec<Option<u64>>)
    ensures
        r@.len() == pats@.len(),
        forall|k: int| 0 <= k < pats@.len() ==> #[trigger] r@[k] == tail_hash(pats@[k]@, b as int),
{
    pats.par_iter().map(|p| pattern_tail(p, b)).collect()
}

/// Builds the suffix table of `pats` for block size `b`: each pattern that
/// is at least `b` long is listed under the hash of its last `b` characters.
/// With `parallel` the hashes are computed on the thread pool; the table is
/// the same.
pub(crate) fn build_hash_table(pats: &Vec<Vec<char>>, b: usize, parallel: bool) -> (t: SuffixTable)
    ensures
        suffix_table_ok(t@, rows(pats@), b as int),
{
    let ghost pv = rows(pats@);
    let tails = if parallel {
        all_tails_parallel(pats, b)
    } else {
        all_tails(pats, b)
    };
    let mut t = SuffixTable::new();
    let mut k: usize = 0;
    while k < tails.len()
        invariant
            k <= tails@.len(),
            tails@.len() == pats@.len(),
            pv == rows(pats@),
            forall|j: int| 0 <= j < pats@.len() ==> #[trigger] tails@[j] == tail_hash(pats@[j]@, b as int),
            suffix_table_upto(t@, pv, b as int, k as int),
        decreases tails.len() - k,
    {
        let ghost before = t@;
        assert(pv[k as int] == pats@[k as int]@);
        assert(tails@[k as int] == tail_hash(pats@[k as int]@, b as int));
        match tails[k] {
            Some(h0) => {
                t.push(h0, k);
                proof {
                    assert forall|h: u64|
                        #![trigger t@.contains_key(h)]
                        #![trigger suffix_list(pv, b as int, h, k + 1)]
                        list_at(t@, h) == suffix_list(pv, b as int, h, k + 1) && (t@.contains_key(h)
                            <==> suffix_list(pv, b as int, h, k + 1).len() > 0) by {
                        assert(list_at(before, h) == suffix_list(pv, b as int, h, k as int));
                        assert(before.contains_key(h) <==> suffix_list(pv, b as int, h, k as int).len()
                            > 0);
                        assert(ends_with_hash(pv, b as int, h, k as int) <==> h == h0);
                    }
                }
            },
            None => {
                proof {
                    assert forall|h: u64|
                        #![trigger t@.contains_key(h)]
                        #![trigger suffix_list(pv, b as int, h, k + 1)]
                        list_at(t@, h) == suffix_list(pv, b as int, h, k + 1) && (t@.contains_key(h)
                            <==> suffix_list(pv, b as int, h, k + 1).len() > 0) by {
                        assert(list_at(before, h) == suffix_list(pv, b as int, h, k as int));
                        assert(!ends_with_hash(pv, b as int, h, k as int));
                    }
                }
            },
        }
        k += 1;
    }
    t
}

} // verus!
