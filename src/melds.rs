//! Partitioning a residual hand into melds by pivot search.
use vstd::prelude::*;
use crate::tile::{Tile, copy_counts};

verus! {

/// A group of three tiles.
#[derive(Clone, Copy, Debug, PartialEq, Eq, Structural, Hash)]
pub enum Meld {
    /// Three consecutive numbered tiles of one suit; holds the lowest.
    Shuntsu(Tile),
    /// Three identical tiles.
    Koutsu(Tile),
}

/// Whether `i` can start a sequence: a numbered tile of value 7 or less.
pub open spec fn seq_base(i: int) -> bool {
    0 <= i < 27 && i % 9 <= 6
}

pub open spec fn meld_wf(m: Meld) -> bool {
    match m {
        Meld::Shuntsu(t) => seq_base(t.id as int),
        Meld::Koutsu(t) => t.id < 34,
    }
}

/// Copies of identity `t` inside meld `m`.
pub open spec fn meld_cnt(m: Meld, t: int) -> int {
    match m {
        Meld::Shuntsu(b) => if b.id <= t <= b.id + 2 { 1int } else { 0int },
        Meld::Koutsu(b) => if b.id == t { 3int } else { 0int },
    }
}

/// Copies of identity `t` over all melds of `ms`.
pub open spec fn melds_cnt(ms: Seq<Meld>, t: int) -> int
    decreases ms.len(),
{
    if ms.len() == 0 {
        0
    } else {
        meld_cnt(ms[0], t) + melds_cnt(ms.drop_first(), t)
    }
}

/// `ms` is a list of well-formed melds whose tiles are exactly the counts `c`.
pub open spec fn covers(c: Seq<u8>, ms: Seq<Meld>) -> bool {
    &&& c.len() == 34
    &&& forall|k: int| 0 <= k < ms.len() ==> meld_wf(#[trigger] ms[k])
    &&& forall|t: int| 0 <= t < 34 ==> #[trigger] melds_cnt(ms, t) == c[t] as int
}

/// Some list of exactly `n` melds covers `c`.
pub open spec fn can_partition(c: Seq<u8>, n: int) -> bool {
    exists|ms: Seq<Meld>| ms.len() == n && #[trigger] covers(c, ms)
}

/// `c` after taking out the tiles of meld `m`.
pub open spec fn minus_meld(c: Seq<u8>, m: Meld) -> Seq<u8> {
    Seq::new(c.len(), |t: int| (c[t] - meld_cnt(m, t)) as u8)
}

pub proof fn lemma_cnt_nonneg(ms: Seq<Meld>, t: int)
    ensures
        melds_cnt(ms, t) >= 0,
    decreases ms.len(),
{
    if ms.len() > 0 {
        lemma_cnt_nonneg(ms.drop_first(), t);
    }
}

pub proof fn lemma_cnt_remove(ms: Seq<Meld>, i: int, t: int)
    requires
        0 <= i < ms.len(),
    ensures
        melds_cnt(ms, t) == melds_cnt(ms.remove(i), t) + meld_cnt(ms[i], t),
    decreases ms.len(),
{
    if i > 0 {
        lemma_cnt_remove(ms.drop_first(), i - 1, t);
        assert(ms.remove(i).drop_first() =~= ms.drop_first().remove(i - 1));
    } else {
        assert(ms.remove(0) =~= ms.drop_first());
    }
}

pub proof fn lemma_cnt_prepend(m: Meld, ms: Seq<Meld>, t: int)
    ensures
        melds_cnt(seq![m] + ms, t) == meld_cnt(m, t) + melds_cnt(ms, t),
{
    assert((seq![m] + ms).drop_first() =~= ms);
}

/// A positive count comes from some meld.
pub proof fn lemma_cnt_witness(ms: Seq<Meld>, t: int) -> (i: int)
    requires
        melds_cnt(ms, t) > 0,
    ensures
        0 <= i < ms.len(),
        meld_cnt(ms[i], t) > 0,
    decreases ms.len(),
{
    if meld_cnt(ms[0], t) > 0 {
        0
    } else {
        let j = lemma_cnt_witness(ms.drop_first(), t);
        j + 1
    }
}

/// Counts agree on two orderings of the same melds.
pub proof fn lemma_cnt_perm(a: Seq<Meld>, b: Seq<Meld>, t: int)
    requires
        a.to_multiset() == b.to_multiset(),
    ensures
        melds_cnt(a, t) == melds_cnt(b, t),
    decreases a.len(),
{
    broadcast use vstd::seq_lib::group_to_multiset_ensures;

    if a.len() == 0 {
        assert(b.to_multiset().len() == 0);
        assert(b.len() == 0);
    } else {
        let m = a[0];
        assert(a.to_multiset().contains(m));
        assert(b.to_multiset().contains(m));
        let k = choose|k: int| 0 <= k < b.len() && b[k] == m;
        assert(a.remove(0) =~= a.drop_first());
        assert(a.remove(0).to_multiset() == a.to_multiset().remove(m));
        assert(b.remove(k).to_multiset() == b.to_multiset().remove(m));
        lemma_cnt_perm(a.drop_first(), b.remove(k), t);
        lemma_cnt_remove(b, k, t);
    }
}

/// Taking out the meld at `i` leaves a cover of the remaining counts.
pub proof fn lemma_cover_remove(c: Seq<u8>, ms: Seq<Meld>, i: int)
    requires
        covers(c, ms),
        0 <= i < ms.len(),
    ensures
        covers(minus_meld(c, ms[i]), ms.remove(i)),
{
    let c2 = minus_meld(c, ms[i]);
    assert forall|t: int| 0 <= t < 34 implies #[trigger] melds_cnt(ms.remove(i), t) == c2[t] as int by {
        lemma_cnt_remove(ms, i, t);
        lemma_cnt_nonneg(ms.remove(i), t);
        assert(melds_cnt(ms, t) == c[t] as int);
    }
    assert forall|k: int| 0 <= k < ms.remove(i).len() implies meld_wf(#[trigger] ms.remove(i)[k]) by {
        if k < i {
            assert(ms.remove(i)[k] == ms[k]);
        } else {
            assert(ms.remove(i)[k] == ms[k + 1]);
        }
    }
}

/// Putting a meld back in front of a cover of the rest covers the whole.
pub proof fn lemma_cover_prepend(c: Seq<u8>, m: Meld, ms: Seq<Meld>)
    requires
        c.len() == 34,
        meld_wf(m),
        forall|t: int| 0 <= t < 34 ==> meld_cnt(m, t) <= c[t],
        covers(minus_meld(c, m), ms),
    ensures
        covers(c, seq![m] + ms),
{
    let c2 = minus_meld(c, m);
    assert forall|t: int| 0 <= t < 34 implies #[trigger] melds_cnt(seq![m] + ms, t) == c[t] as int by {
        lemma_cnt_prepend(m, ms, t);
        assert(melds_cnt(ms, t) == c2[t] as int);
    }
    assert forall|k: int| 0 <= k < (seq![m] + ms).len() implies meld_wf(#[trigger] (seq![m] + ms)[k]) by {
        if k > 0 {
            assert((seq![m] + ms)[k] == ms[k - 1]);
        }
    }
}

/// The smallest present identity is used by some meld either as a triplet
/// or as the lowest tile of a sequence.
pub proof fn lemma_pivot(c: Seq<u8>, ms: Seq<Meld>, p: int) -> (i: int)
    requires
        covers(c, ms),
        0 <= p < 34,
        c[p] > 0,
        forall|q: int| 0 <= q < p ==> c[q] == 0,
    ensures
        0 <= i < ms.len(),
        ms[i] == Meld::Koutsu(Tile { id: p as u8 }) || ms[i] == Meld::Shuntsu(Tile { id: p as u8 }),
{
    assert(melds_cnt(ms, p) == c[p] as int);
    let i = lemma_cnt_witness(ms, p);
    assert(meld_wf(ms[i]));
    match ms[i] {
        Meld::Shuntsu(b) => {
            let q = b.id as int;
            if q < p {
                lemma_cnt_remove(ms, i, q);
                lemma_cnt_nonneg(ms.remove(i), q);
                assert(melds_cnt(ms, q) == c[q] as int);
            }
        },
        Meld::Koutsu(b) => {},
    }
    i
}

/// Position of the smallest identity with a nonzero count, or 34 if none.
fn find_pivot(c: &Vec<u8>) -> (p: usize)
    requires
        c@.len() == 34,
    ensures
        p <= 34,
        p < 34 ==> c@[p as int] > 0,
        forall|q: int| 0 <= q < p ==> c@[q] == 0,
{
    let mut i: usize = 0;
    while i < 34
        invariant
            i <= 34,
            c@.len() == 34,
            forall|q: int| 0 <= q < i ==> c@[q] == 0,
        decreases 34 - i,
    {
        if c[i] > 0 {
            return i;
        }
        i += 1;
    }
    34
}

/// The counts after taking out `m`, given that they hold it.
fn remove_meld(c: &Vec<u8>, m: Meld) -> (r: Vec<u8>)
    requires
        c@.len() == 34,
        meld_wf(m),
        forall|t: int| 0 <= t < 34 ==> meld_cnt(m, t) <= c@[t],
    ensures
        r@ == minus_meld(c@, m),
{
    let mut r = copy_counts(c);
    match m {
        Meld::Koutsu(b) => {
            let i = b.id as usize;
            assert(meld_cnt(m, i as int) == 3);
            let v = r[i];
            r.set(i, v - 3);
        },
        Meld::Shuntsu(b) => {
            let i = b.id as usize;
            assert(meld_cnt(m, i as int) == 1);
            assert(meld_cnt(m, i as int + 1) == 1);
            assert(meld_cnt(m, i as int + 2) == 1);
            let v0 = r[i];
            r.set(i, v0 - 1);
            let v1 = r[i + 1];
            r.set(i + 1, v1 - 1);
            let v2 = r[i + 2];
            r.set(i + 2, v2 - 1);
        },
    }
    assert(r@ =~= minus_meld(c@, m));
    r
}

/// Whether meld `m`, based on the pivot, fits inside `c`.
fn meld_fits(c: &Vec<u8>, m: Meld) -> (r: bool)
    requires
        c@.len() == 34,
        match m {
            Meld::Shuntsu(b) => b.id < 34,
            Meld::Koutsu(b) => b.id < 34,
        },
    ensures
        r == (meld_wf(m) && forall|t: int| 0 <= t < 34 ==> meld_cnt(m, t) <= c@[t]),
{
    match m {
        Meld::Koutsu(b) => {
            let r = c[b.id as usize] >= 3;
            if !r {
                assert(meld_cnt(m, b.id as int) > c@[b.id as int]);
            }
            r
        },
        Meld::Shuntsu(b) => {
            let i = b.id as usize;
            if i >= 27 || i % 9 > 6 {
                return false;
            }
            let r = c[i] >= 1 && c[i + 1] >= 1 && c[i + 2] >= 1;
            if !r {
                if c[i] < 1 {
                    assert(meld_cnt(m, i as int) > c@[i as int]);
                } else if c[i + 1] < 1 {
                    assert(meld_cnt(m, i + 1) > c@[i + 1]);
                } else {
                    assert(meld_cnt(m, i + 2) > c@[i + 2]);
                }
            }
            r
        },
    }
}

/// Whether `c` splits into exactly `needed` melds; stops at the first success.
pub fn can_form_melds(counts: Vec<u8>, needed: u32) -> (r: bool)
    requires
        counts@.len() == 34,
    ensures
        r == can_partition(counts@, needed as int),
    decreases needed,
{
    let c = counts;
    let p = find_pivot(&c);
    if needed == 0 {
        proof {
            if p == 34 {
                let e = Seq::<Meld>::empty();
                assert(covers(c@, e));
            } else {
                assert forall|ms: Seq<Meld>| ms.len() == 0 implies !#[trigger] covers(c@, ms) by {
                    assert(melds_cnt(ms, p as int) == 0);
                }
            }
        }
        return p == 34;
    }
    if p == 34 {
        proof {
            assert forall|ms: Seq<Meld>| ms.len() == needed implies !#[trigger] covers(c@, ms) by {
                if covers(c@, ms) {
                    assert(meld_wf(ms[0]));
                    let t = match ms[0] {
                        Meld::Shuntsu(b) => b.id as int,
                        Meld::Koutsu(b) => b.id as int,
                    };
                    lemma_cnt_remove(ms, 0, t);
                    lemma_cnt_nonneg(ms.remove(0), t);
                    assert(melds_cnt(ms, t) == c@[t] as int);
                }
            }
        }
        return false;
    }
    let pivot = Tile { id: p as u8 };
    let trip = Meld::Koutsu(pivot);
    let run = Meld::Shuntsu(pivot);
    let mut found = false;
    if meld_fits(&c, trip) {
        let rest = remove_meld(&c, trip);
        if can_form_melds(rest, needed - 1) {
            proof {
                let ms = choose|ms: Seq<Meld>| ms.len() == needed - 1 && #[trigger] covers(rest@, ms);
                lemma_cover_prepend(c@, trip, ms);
                assert(covers(c@, seq![trip] + ms));
            }
            found = true;
        }
    }
    if !found && meld_fits(&c, run) {
        let rest = remove_meld(&c, run);
        if can_form_melds(rest, needed - 1) {
            proof {
                let ms = choose|ms: Seq<Meld>| ms.len() == needed - 1 && #[trigger] covers(rest@, ms);
                lemma_cover_prepend(c@, run, ms);
                assert(covers(c@, seq![run] + ms));
            }
            found = true;
        }
    }
    proof {
        if !found {
            assert forall|ms: Seq<Meld>| ms.len() == needed implies !#[trigger] covers(c@, ms) by {
                if covers(c@, ms) {
                    let i = lemma_pivot(c@, ms, p as int);
                    lemma_cover_remove(c@, ms, i);
                    let m = ms[i];
                    assert forall|t: int| 0 <= t < 34 implies meld_cnt(m, t) <= c@[t] by {
                        lemma_cnt_remove(ms, i, t);
                        lemma_cnt_nonneg(ms.remove(i), t);
                        assert(melds_cnt(ms, t) == c@[t] as int);
                    }
                    assert(meld_wf(m));
                    assert(covers(minus_meld(c@, m), ms.remove(i)));
                    assert(can_partition(minus_meld(c@, m), needed - 1));
                }
            }
        }
    }
    found
}


/// No tile left.
pub open spec fn all_zero(c: Seq<u8>) -> bool {
    forall|t: int| 0 <= t < 34 ==> c[t] == 0
}

/// `p` is the smallest identity present in `c`.
pub open spec fn is_pivot(c: Seq<u8>, p: int) -> bool {
    0 <= p < 34 && c[p] > 0 && forall|q: int| 0 <= q < p ==> c[q] == 0
}

/// `m` is the pivot's triplet (when at least three are held) or the
/// sequence that the pivot starts.
pub open spec fn pivot_meld(c: Seq<u8>, m: Meld) -> bool {
    match m {
        Meld::Koutsu(t) => is_pivot(c, t.id as int) && c[t.id as int] >= 3,
        Meld::Shuntsu(t) => is_pivot(c, t.id as int),
    }
}

pub open spec fn pow2(n: nat) -> nat
    decreases n,
{
    if n == 0 {
        1
    } else {
        2 * pow2((n - 1) as nat)
    }
}

/// Some entry of `res` holds the same melds as `ms`, in some order.
pub open spec fn has_perm(res: Seq<Vec<Meld>>, ms: Seq<Meld>) -> bool {
    exists|j: int| 0 <= j < res.len() && (#[trigger] res[j])@.to_multiset() == ms.to_multiset()
}

/// Appends `m` followed by each list of `subs` to `out`.
fn append_prefixed(out: &mut Vec<Vec<Meld>>, m: Meld, subs: &Vec<Vec<Meld>>)
    ensures
        final(out)@.len() == old(out)@.len() + subs@.len(),
        forall|k: int| 0 <= k < old(out)@.len() ==> #[trigger] final(out)@[k] == old(out)@[k],
        forall|k: int|
            0 <= k < subs@.len() ==> (#[trigger] final(out)@[old(out)@.len() + k])@ == seq![m]
                + subs@[k]@,
{
    let ghost base = out@;
    let mut k: usize = 0;
    while k < subs.len()
        invariant
            k <= subs@.len(),
            out@.len() == base.len() + k,
            forall|x: int| 0 <= x < base.len() ==> #[trigger] out@[x] == base[x],
            forall|x: int| 0 <= x < k ==> (#[trigger] out@[base.len() + x])@ == seq![m] + subs@[x]@,
        decreases subs@.len() - k,
    {
        let sub = &subs[k];
        let mut v: Vec<Meld> = Vec::new();
        v.push(m);
        let mut x: usize = 0;
        while x < sub.len()
            invariant
                x <= sub@.len(),
                v@ == seq![m] + sub@.subrange(0, x as int),
            decreases sub@.len() - x,
        {
            v.push(sub[x]);
            x += 1;
            assert(v@ =~= seq![m] + sub@.subrange(0, x as int));
        }
        assert(sub@.subrange(0, sub@.len() as int) =~= sub@);
        out.push(v);
        k += 1;
    }
}

/// Two runs of lists, each list of the first run starting with `m1` and each
/// of the second with `m2`, are pairwise distinct when each run's tails are.
proof fn lemma_blocks(
    res: Seq<Vec<Meld>>,
    n1: int,
    m1: Meld,
    s1: Seq<Vec<Meld>>,
    m2: Meld,
    s2: Seq<Vec<Meld>>,
)
    requires
        m1 != m2,
        0 <= n1 <= res.len(),
        n1 == s1.len(),
        res.len() - n1 == s2.len(),
        forall|k: int| 0 <= k < n1 ==> (#[trigger] res[k])@ == seq![m1] + s1[k]@,
        forall|k: int| 0 <= k < res.len() - n1 ==> (#[trigger] res[n1 + k])@ == seq![m2] + s2[k]@,
        forall|i: int, j: int| 0 <= i < j < s1.len() ==> (#[trigger] s1[i])@ != (#[trigger] s1[j])@,
        forall|i: int, j: int| 0 <= i < j < s2.len() ==> (#[trigger] s2[i])@ != (#[trigger] s2[j])@,
    ensures
        forall|j: int| 0 <= j < n1 ==> (#[trigger] res[j])@[0] == m1,
        forall|j: int| n1 <= j < res.len() ==> (#[trigger] res[j])@[0] == m2,
        forall|i: int, j: int| 0 <= i < j < res.len() ==> (#[trigger] res[i])@ != (#[trigger] res[j])@,
{
    assert forall|j: int| n1 <= j < res.len() implies (#[trigger] res[j])@[0] == m2 by {
        assert(res[n1 + (j - n1)]@ == seq![m2] + s2[j - n1]@);
    }
    assert forall|j: int| 0 <= j < n1 implies (#[trigger] res[j])@[0] == m1 by {
        assert(res[j]@ == seq![m1] + s1[j]@);
    }
    assert forall|i: int, j: int| 0 <= i < j < res.len() implies (#[trigger] res[i])@ != (#[trigger] res[j])@ by {
        if i < n1 && j < n1 {
            assert(res[i]@.drop_first() =~= s1[i]@);
            assert(res[j]@.drop_first() =~= s1[j]@);
        } else if i >= n1 && j >= n1 {
            assert(res[n1 + (i - n1)]@ == seq![m2] + s2[i - n1]@);
            assert(res[n1 + (j - n1)]@ == seq![m2] + s2[j - n1]@);
            assert(res[i]@.drop_first() =~= s2[i - n1]@);
            assert(res[j]@.drop_first() =~= s2[j - n1]@);
        } else if i < n1 {
            assert(res[i]@[0] == m1);
            assert(res[j]@[0] == m2);
        }
    }
}

/// Every way to split `c` into exactly `needed` melds, each found once per
/// search path, melds listed in the order the pivot search chose them.
#[verifier::rlimit(60)]
pub fn find_all_meld_combinations(counts: Vec<u8>, needed: u32) -> (res: Vec<Vec<Meld>>)
    requires
        counts@.len() == 34,
    ensures
        forall|j: int| 0 <= j < res@.len() ==> (#[trigger] res@[j])@.len() == needed && covers(counts@, res@[j]@),
        forall|ms: Seq<Meld>| ms.len() == needed && #[trigger] covers(counts@, ms) ==> has_perm(res@, ms),
        needed == 0 ==> res@.len() == if all_zero(counts@) { 1int } else { 0int },
        needed > 0 ==> forall|j: int| 0 <= j < res@.len() ==> pivot_meld(counts@, (#[trigger] res@[j])@[0]),
        forall|i: int, j: int| 0 <= i < j < res@.len() ==> (#[trigger] res@[i])@ != (#[trigger] res@[j])@,
        res@.len() <= pow2(needed as nat),
    decreases needed,
{
    let c = counts;
    let p = find_pivot(&c);
    let mut results: Vec<Vec<Meld>> = Vec::new();
    if needed == 0 {
        if p == 34 {
            let e: Vec<Meld> = Vec::new();
            results.push(e);
            proof {
                assert(all_zero(c@));
                assert(covers(c@, e@));
                assert forall|ms: Seq<Meld>| ms.len() == needed && #[trigger] covers(c@, ms) implies has_perm(results@, ms) by {
                    assert(ms =~= e@);
                    assert(results@[0]@.to_multiset() == ms.to_multiset());
                }
            }
        } else {
            proof {
                assert forall|ms: Seq<Meld>| ms.len() == 0 implies !#[trigger] covers(c@, ms) by {
                    assert(melds_cnt(ms, p as int) == 0);
                }
                assert(!all_zero(c@));
            }
        }
        return results;
    }
    if p == 34 {
        proof {
            assert forall|ms: Seq<Meld>| ms.len() == needed implies !#[trigger] covers(c@, ms) by {
                if covers(c@, ms) {
                    assert(meld_wf(ms[0]));
                    let t = match ms[0] {
                        Meld::Shuntsu(b) => b.id as int,
                        Meld::Koutsu(b) => b.id as int,
                    };
                    lemma_cnt_remove(ms, 0, t);
                    lemma_cnt_nonneg(ms.remove(0), t);
                    assert(melds_cnt(ms, t) == c@[t] as int);
                }
            }
        }
        return results;
    }
    let pivot = Tile { id: p as u8 };
    let trip = Meld::Koutsu(pivot);
    let run = Meld::Shuntsu(pivot);
    let fits_trip = meld_fits(&c, trip);
    let fits_run = meld_fits(&c, run);
    let ghost subs_trip: Seq<Vec<Meld>> = Seq::empty();
    let ghost subs_run: Seq<Vec<Meld>> = Seq::empty();
    if fits_trip {
        let rest = remove_meld(&c, trip);
        let subs = find_all_meld_combinations(rest, needed - 1);
        proof { subs_trip = subs@; }
        append_prefixed(&mut results, trip, &subs);
    }
    let ghost n_trip = results@.len();
    let ghost after_trip = results@;
    if fits_run {
        let rest = remove_meld(&c, run);
        let subs = find_all_meld_combinations(rest, needed - 1);
        proof { subs_run = subs@; }
        append_prefixed(&mut results, run, &subs);
    }
    proof {
        assert(n_trip == if fits_trip { subs_trip.len() } else { 0 });
        assert(is_pivot(c@, p as int));
        assert(results@.len() <= pow2(needed as nat)) by {
            assert(pow2(needed as nat) == 2 * pow2((needed - 1) as nat));
        }
        assert forall|k: int| 0 <= k < n_trip implies (#[trigger] results@[k])@ == seq![trip] + subs_trip[k]@ by {
            assert(after_trip[0 + k]@ == seq![trip] + subs_trip[k]@);
            assert(results@[k] == after_trip[k]);
        }
        assert forall|k: int| 0 <= k < results@.len() - n_trip implies (#[trigger] results@[n_trip + k])@
            == seq![run] + subs_run[k]@ by {}
        lemma_blocks(results@, n_trip as int, trip, subs_trip, run, subs_run);
        if fits_trip {
            assert(meld_cnt(trip, p as int) <= c@[p as int]);
        }
        assert forall|j: int| 0 <= j < results@.len() implies pivot_meld(c@, (#[trigger] results@[j])@[0]) by {
            if j < n_trip {
                assert(results@[j]@[0] == trip);
            } else {
                assert(results@[j]@[0] == run);
            }
        }
        assert forall|j: int| 0 <= j < results@.len() implies (#[trigger] results@[j])@.len() == needed && covers(c@, results@[j]@) by {
            if j < n_trip {
                let ms = subs_trip[j]@;
                assert(after_trip[0 + j]@ == seq![trip] + ms);
                assert(results@[j] == after_trip[j]);
                lemma_cover_prepend(c@, trip, ms);
            } else {
                let ms = subs_run[j - n_trip]@;
                assert(results@[n_trip + (j - n_trip)]@ == seq![run] + ms);
                lemma_cover_prepend(c@, run, ms);
            }
        }
        assert forall|ms: Seq<Meld>| ms.len() == needed && #[trigger] covers(c@, ms) implies has_perm(results@, ms) by {
            let i = lemma_pivot(c@, ms, p as int);
            let m = ms[i];
            lemma_cover_remove(c@, ms, i);
            assert forall|t: int| 0 <= t < 34 implies meld_cnt(m, t) <= c@[t] by {
                lemma_cnt_remove(ms, i, t);
                lemma_cnt_nonneg(ms.remove(i), t);
                assert(melds_cnt(ms, t) == c@[t] as int);
            }
            assert(meld_wf(m));
            let rest = ms.remove(i);
            assert(rest.to_multiset() == ms.to_multiset().remove(m)) by {
                vstd::seq_lib::to_multiset_remove(ms, i);
            }
            assert(ms.to_multiset().contains(m)) by {
                broadcast use vstd::seq_lib::group_to_multiset_ensures;
            }
            assert(rest.to_multiset().insert(m) =~= ms.to_multiset());
            let subs = if m == trip { subs_trip } else { subs_run };
            let off: int = if m == trip { 0int } else { n_trip as int };
            assert(covers(minus_meld(c@, m), rest));
            let j = choose|j: int| 0 <= j < subs.len() && (#[trigger] subs[j])@.to_multiset() == rest.to_multiset();
            let s = subs[j]@;
            if m == trip {
                assert(after_trip[0 + j]@ == seq![m] + s);
                assert(results@[j] == after_trip[j]);
            }
            assert(results@[off + j]@ == seq![m] + s);
            assert(seq![m] + s =~= s.insert(0, m));
            vstd::seq_lib::to_multiset_insert(s, 0, m);
            assert(results@[off + j]@.to_multiset() == ms.to_multiset());
        }
    }
    results
}


/// A reordering of a cover is a cover.
pub proof fn lemma_cover_perm(c: Seq<u8>, a: Seq<Meld>, b: Seq<Meld>)
    requires
        covers(c, a),
        a.to_multiset() == b.to_multiset(),
    ensures
        covers(c, b),
{
    broadcast use vstd::seq_lib::group_to_multiset_ensures;

    assert forall|t: int| 0 <= t < 34 implies #[trigger] melds_cnt(b, t) == c[t] as int by {
        lemma_cnt_perm(a, b, t);
        assert(melds_cnt(a, t) == c[t] as int);
    }
    assert forall|k: int| 0 <= k < b.len() implies meld_wf(#[trigger] b[k]) by {
        assert(b.to_multiset().contains(b[k]));
        assert(a.to_multiset().contains(b[k]));
        let x = choose|x: int| 0 <= x < a.len() && a[x] == b[k];
        assert(meld_wf(a[x]));
    }
}

} // verus!
