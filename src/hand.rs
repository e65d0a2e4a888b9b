//! Winning-shape detectors and the full decomposition of a hand.
use vstd::prelude::*;
use crate::tile::{Tile, TileCounts, valid_counts, is_orphan, total, num_present, present_prefix, sum_prefix, copy_counts};
use crate::melds::{
    Meld, covers, can_partition, meld_wf, melds_cnt, meld_cnt, can_form_melds,
    find_all_meld_combinations, has_perm, lemma_cover_perm,
};

verus! {

/// One way to read a complete hand.
#[derive(Clone, Debug, PartialEq, Eq)]
pub enum HandStructure {
    /// Four melds and a pair.
    Standard { melds: Vec<Meld>, pair: Tile },
    /// Seven distinct pairs, in tile order.
    Chiitoitsu { pairs: Vec<Tile> },
    /// Thirteen orphans; `pair` is the orphan held twice.
    Kokushi { pair: Tile },
}

/// `p` is the doubled orphan of a thirteen-orphans hand: every orphan once,
/// `p` twice, nothing else.
pub open spec fn kokushi_pair(c: Seq<u8>, p: int) -> bool {
    &&& c.len() == 34
    &&& 0 <= p < 34
    &&& is_orphan(p)
    &&& c[p] == 2
    &&& forall|i: int| 0 <= i < 34 && i != p ==> #[trigger] c[i] == if is_orphan(i) { 1u8 } else { 0u8 }
}

pub open spec fn is_kokushi(c: Seq<u8>) -> bool {
    exists|p: int| kokushi_pair(c, p)
}

/// Seven distinct identities, each held exactly twice.
pub open spec fn seven_pairs(c: Seq<u8>) -> bool {
    &&& c.len() == 34
    &&& num_present(c) == 7
    &&& forall|i: int| 0 <= i < 34 ==> #[trigger] c[i] == 0 || c[i] == 2
}

/// The thirteen-tile hand holding every orphan once.
pub open spec fn kokushi_wait(c: Seq<u8>) -> bool {
    &&& c.len() == 34
    &&& total(c) == 13
    &&& forall|i: int| 0 <= i < 34 && is_orphan(i) ==> #[trigger] c[i] == 1
}

/// `c` without two copies of `p`.
pub open spec fn minus_pair(c: Seq<u8>, p: int) -> Seq<u8> {
    c.update(p, (c[p] - 2) as u8)
}

/// Pair `p` and the four melds `ms` make up exactly the hand `c`.
pub open spec fn standard_valid(c: Seq<u8>, p: int, ms: Seq<Meld>) -> bool {
    &&& c.len() == 34
    &&& 0 <= p < 34
    &&& c[p] >= 2
    &&& ms.len() == 4
    &&& covers(minus_pair(c, p), ms)
}

/// Taking `p` as the pair leaves tiles that split into four melds.
pub open spec fn pair_works(c: Seq<u8>, p: int) -> bool {
    0 <= p < 34 && c[p] >= 2 && can_partition(minus_pair(c, p), 4)
}

pub open spec fn is_standard(c: Seq<u8>) -> bool {
    exists|p: int| #[trigger] pair_works(c, p)
}

pub open spec fn winning(c: Seq<u8>) -> bool {
    is_kokushi(c) || seven_pairs(c) || is_standard(c)
}

/// Canonical position of a meld: by tile, a triplet before the sequence it starts.
pub open spec fn meld_key(m: Meld) -> int {
    match m {
        Meld::Koutsu(t) => 2 * t.id,
        Meld::Shuntsu(t) => 2 * t.id + 1,
    }
}

pub open spec fn melds_sorted(ms: Seq<Meld>) -> bool {
    forall|i: int, j: int| 0 <= i < j < ms.len() ==> meld_key(ms[i]) <= meld_key(ms[j])
}

/// `h` is a correct reading of the hand `c`, with its melds in canonical order.
pub open spec fn structure_ok(c: Seq<u8>, h: HandStructure) -> bool {
    match h {
        HandStructure::Standard { melds, pair } => standard_valid(c, pair.id as int, melds@)
            && melds_sorted(melds@),
        HandStructure::Chiitoitsu { pairs } => {
            &&& seven_pairs(c)
            &&& pairs@.len() == 7
            &&& forall|k: int| 0 <= k < 7 ==> (#[trigger] pairs@[k]).id < 34 && c[pairs@[k].id as int] == 2
            &&& forall|k: int, l: int| 0 <= k < l < 7 ==> pairs@[k].id < pairs@[l].id
            &&& forall|i: int| 0 <= i < 34 && c[i] > 0 ==> #[trigger] lists_tile(pairs@, i)
        },
        HandStructure::Kokushi { pair } => kokushi_pair(c, pair.id as int),
    }
}

/// Identity `i` is among `ts`.
pub open spec fn lists_tile(ts: Seq<Tile>, i: int) -> bool {
    exists|k: int| 0 <= k < ts.len() && (#[trigger] ts[k]).id == i
}

/// Structural equality of two readings.
pub open spec fn structure_eq(a: HandStructure, b: HandStructure) -> bool {
    match (a, b) {
        (HandStructure::Standard { melds: m1, pair: p1 }, HandStructure::Standard { melds: m2, pair: p2 }) =>
            m1@ == m2@ && p1 == p2,
        (HandStructure::Chiitoitsu { pairs: a1 }, HandStructure::Chiitoitsu { pairs: a2 }) => a1@ == a2@,
        (HandStructure::Kokushi { pair: p1 }, HandStructure::Kokushi { pair: p2 }) => p1 == p2,
        _ => false,
    }
}

/// `h` is the standard reading with pair `p` and the melds of `ms` in some order.
pub open spec fn standard_matches(h: HandStructure, p: int, ms: Seq<Meld>) -> bool {
    match h {
        HandStructure::Standard { melds, pair } => pair.id == p && melds@.to_multiset() == ms.to_multiset(),
        _ => false,
    }
}

pub open spec fn has_standard(res: Seq<HandStructure>, p: int, ms: Seq<Meld>) -> bool {
    exists|j: int| 0 <= j < res.len() && standard_matches(#[trigger] res[j], p, ms)
}

pub open spec fn is_kokushi_variant(h: HandStructure) -> bool {
    h is Kokushi
}

pub open spec fn is_chiitoitsu_variant(h: HandStructure) -> bool {
    h is Chiitoitsu
}

pub open spec fn pairwise_distinct(res: Seq<HandStructure>) -> bool {
    forall|i: int, j: int| 0 <= i < j < res.len() ==> !structure_eq(#[trigger] res[i], #[trigger] res[j])
}

/// `res` lists every reading of `c` once, in increasing key order: each entry
/// is correct and canonical, no two are equal, and every thirteen-orphans, seven-pairs and standard
/// reading (up to the order of its melds) is present.
pub open spec fn decomposition_of(c: Seq<u8>, res: Seq<HandStructure>) -> bool {
    &&& forall|j: int| 0 <= j < res.len() ==> structure_ok(c, #[trigger] res[j])
    &&& pairwise_distinct(res)
    &&& readings_sorted(res)
    &&& is_kokushi(c) ==> exists|j: int| 0 <= j < res.len() && is_kokushi_variant(#[trigger] res[j])
    &&& seven_pairs(c) ==> exists|j: int| 0 <= j < res.len() && is_chiitoitsu_variant(#[trigger] res[j])
    &&& forall|p: int, ms: Seq<Meld>| #[trigger] standard_valid(c, p, ms) ==> has_standard(res, p, ms)
}

/// The doubled orphan if the hand is thirteen orphans.
fn check_kokushi(counts: &TileCounts) -> (r: Option<Tile>)
    requires
        counts.wf(),
    ensures
        match r {
            Some(t) => kokushi_pair(counts.counts@, t.id as int),
            None => !is_kokushi(counts.counts@),
        },
{
    let c = &counts.counts;
    let mut pair: Option<Tile> = None;
    let mut i: usize = 0;
    while i < 34
        invariant
            i <= 34,
            c@.len() == 34,
            c@ == counts.counts@,
            match pair {
                Some(t) => t.id < i && is_orphan(t.id as int) && c@[t.id as int] == 2 && forall|j: int|
                    0 <= j < i && j != t.id ==> #[trigger] c@[j] == if is_orphan(j) { 1u8 } else { 0u8 },
                None => forall|j: int| 0 <= j < i ==> #[trigger] c@[j] == if is_orphan(j) { 1u8 } else { 0u8 },
            },
        decreases 34 - i,
    {
        let t = Tile { id: i as u8 };
        assert(t.id as int == i as int);
        let v = c[i];
        if t.is_terminal_or_honor() {
            if v == 2 {
                if pair.is_some() {
                    proof {
                        let q = pair.unwrap().id as int;
                        assert forall|p: int| !kokushi_pair(c@, p) by {
                            if kokushi_pair(c@, p) {
                                if p == i {
                                    assert(c@[q] == 1u8);
                                } else {
                                    assert(c@[i as int] == 1u8);
                                }
                            }
                        }
                    }
                    return None;
                }
                pair = Some(t);
            } else if v != 1 {
                proof {
                    assert forall|p: int| !kokushi_pair(c@, p) by {
                        if kokushi_pair(c@, p) && p != i {
                            assert(c@[i as int] == 1u8);
                        }
                    }
                }
                return None;
            }
        } else if v != 0 {
            proof {
                assert forall|p: int| !kokushi_pair(c@, p) by {
                    if kokushi_pair(c@, p) && p != i {
                        assert(c@[i as int] == 0u8);
                    }
                }
            }
            return None;
        }
        i += 1;
    }
    proof {
        if pair.is_none() {
            assert forall|p: int| !kokushi_pair(c@, p) by {
                if 0 <= p < 34 && is_orphan(p) {
                    assert(c@[p] == 1u8);
                }
            }
        }
    }
    pair
}

/// Seven distinct pairs.
pub fn is_chiitoitsu(counts: &TileCounts) -> (r: bool)
    requires
        counts.wf(),
    ensures
        r == seven_pairs(counts.counts@),
{
    let c = &counts.counts;
    let mut n: u32 = 0;
    let mut all_two = true;
    let mut i: usize = 0;
    while i < 34
        invariant
            i <= 34,
            c@.len() == 34,
            c@ == counts.counts@,
            n == present_prefix(c@, i as int),
            n <= i,
            all_two == forall|j: int| 0 <= j < i ==> #[trigger] c@[j] == 0 || c@[j] == 2,
        decreases 34 - i,
    {
        if c[i] > 0 {
            n += 1;
        }
        if c[i] != 0 && c[i] != 2 {
            all_two = false;
        }
        i += 1;
    }
    n == 7 && all_two
}

/// Thirteen tiles holding every orphan exactly once.
pub fn is_kokushi_13_wait(counts: &TileCounts) -> (r: bool)
    requires
        counts.wf(),
    ensures
        r == kokushi_wait(counts.counts@),
{
    let c = &counts.counts;
    let mut sum: u32 = 0;
    let mut i: usize = 0;
    while i < 34
        invariant
            i <= 34,
            c@.len() == 34,
            c@ == counts.counts@,
            valid_counts(c@),
            sum == sum_prefix(c@, i as int),
            sum <= 4 * i,
        decreases 34 - i,
    {
        sum += c[i] as u32;
        i += 1;
    }
    if sum != 13 {
        return false;
    }
    let mut k: usize = 0;
    while k < 34
        invariant
            k <= 34,
            c@.len() == 34,
            c@ == counts.counts@,
            forall|j: int| 0 <= j < k && is_orphan(j) ==> #[trigger] c@[j] == 1,
        decreases 34 - k,
    {
        let t = Tile { id: k as u8 };
        assert(t.id as int == k as int);
        if t.is_terminal_or_honor() && c[k] != 1 {
            assert(is_orphan(k as int) && !(c@[k as int] == 1));
            return false;
        }
        k += 1;
    }
    true
}

/// The hand without two copies of `p`.
fn take_pair(c: &Vec<u8>, p: usize) -> (r: Vec<u8>)
    requires
        c@.len() == 34,
        p < 34,
        c@[p as int] >= 2,
    ensures
        r@ == minus_pair(c@, p as int),
{
    let mut r = copy_counts(c);
    let v = r[p];
    r.set(p, v - 2);
    r
}

/// Whether some pair leaves four melds; stops at the first that does.
pub fn is_standard_hand(counts: &TileCounts) -> (r: bool)
    requires
        counts.wf(),
    ensures
        r == is_standard(counts.counts@),
{
    let c = &counts.counts;
    let mut p: usize = 0;
    while p < 34
        invariant
            p <= 34,
            c@.len() == 34,
            c@ == counts.counts@,
            forall|q: int| 0 <= q < p ==> !#[trigger] pair_works(c@, q),
        decreases 34 - p,
    {
        if c[p] >= 2 {
            let rest = take_pair(c, p);
            if can_form_melds(rest, 4) {
                assert(pair_works(c@, p as int));
                assert(counts.counts@ == c@);
                assert(is_standard(counts.counts@));
                return true;
            }
        }
        p += 1;
    }
    false
}

/// Thirteen orphans, seven pairs, or four melds and a pair.
pub fn is_winning_hand(counts: &TileCounts) -> (r: bool)
    requires
        counts.wf(),
    ensures
        r == winning(counts.counts@),
{
    check_kokushi(counts).is_some() || is_chiitoitsu(counts) || is_standard_hand(counts)
}


fn meld_key_exec(m: Meld) -> (k: u32)
    ensures
        k == meld_key(m),
{
    match m {
        Meld::Koutsu(t) => 2 * (t.id as u32),
        Meld::Shuntsu(t) => 2 * (t.id as u32) + 1,
    }
}

/// The melds of `ms` in canonical order.
fn sort_melds(ms: &Vec<Meld>) -> (r: Vec<Meld>)
    ensures
        r@.to_multiset() == ms@.to_multiset(),
        r@.len() == ms@.len(),
        melds_sorted(r@),
{
    let mut r: Vec<Meld> = Vec::new();
    let mut i: usize = 0;
    proof {
        assert(ms@.subrange(0, 0) =~= Seq::<Meld>::empty());
        assert(r@ =~= Seq::<Meld>::empty());
    }
    while i < ms.len()
        invariant
            i <= ms@.len(),
            r@.to_multiset() == ms@.subrange(0, i as int).to_multiset(),
            r@.len() == i,
            melds_sorted(r@),
        decreases ms@.len() - i,
    {
        let m = ms[i];
        let key = meld_key_exec(m);
        let mut k: usize = 0;
        while k < r.len() && meld_key_exec(r[k]) <= key
            invariant
                k <= r@.len(),
                forall|x: int| 0 <= x < k ==> meld_key(#[trigger] r@[x]) <= key,
            decreases r@.len() - k,
        {
            k += 1;
        }
        let ghost before = r@;
        r.insert(k, m);
        proof {
            assert(r@ == before.insert(k as int, m));
            assert forall|a: int, b: int| 0 <= a < b < r@.len() implies meld_key(r@[a]) <= meld_key(r@[b]) by {
                if b < k {
                    assert(r@[a] == before[a] && r@[b] == before[b]);
                } else if b == k {
                    assert(r@[a] == before[a]);
                } else if a == k {
                    assert(r@[b] == before[b - 1]);
                    assert(meld_key(before[k as int]) > key);
                    if b - 1 > k {
                        assert(meld_key(before[k as int]) <= meld_key(before[b - 1]));
                    }
                } else if a < k {
                    assert(r@[a] == before[a] && r@[b] == before[b - 1]);
                } else {
                    assert(r@[a] == before[a - 1] && r@[b] == before[b - 1]);
                }
            }
            vstd::seq_lib::to_multiset_insert(before, k as int, m);
            assert(ms@.subrange(0, i + 1) =~= ms@.subrange(0, i as int).push(m));
            vstd::seq_lib::to_multiset_build(ms@.subrange(0, i as int), m);
        }
        i += 1;
    }
    assert(ms@.subrange(0, ms@.len() as int) =~= ms@);
    r
}

pub open spec fn contains_eq(res: Seq<HandStructure>, h: HandStructure) -> bool {
    exists|j: int| 0 <= j < res.len() && structure_eq(#[trigger] res[j], h)
}

/// The seven identities of a seven-pairs hand, in tile order.
fn pair_tiles(c: &Vec<u8>) -> (r: Vec<Tile>)
    requires
        seven_pairs(c@),
    ensures
        r@.len() == 7,
        forall|k: int| 0 <= k < 7 ==> (#[trigger] r@[k]).id < 34 && c@[r@[k].id as int] == 2,
        forall|k: int, l: int| 0 <= k < l < 7 ==> r@[k].id < r@[l].id,
        forall|i: int| 0 <= i < 34 && c@[i] > 0 ==> #[trigger] lists_tile(r@, i),
{
    let mut r: Vec<Tile> = Vec::new();
    let mut i: usize = 0;
    while i < 34
        invariant
            i <= 34,
            seven_pairs(c@),
            r@.len() == present_prefix(c@, i as int),
            forall|k: int| 0 <= k < r@.len() ==> (#[trigger] r@[k]).id < i && c@[r@[k].id as int] == 2,
            forall|k: int, l: int| 0 <= k < l < r@.len() ==> r@[k].id < r@[l].id,
            forall|j: int| 0 <= j < i && c@[j] > 0 ==> #[trigger] lists_tile(r@, j),
        decreases 34 - i,
    {
        if c[i] > 0 {
            let ghost before = r@;
            r.push(Tile { id: i as u8 });
            proof {
                assert forall|j: int| 0 <= j < i + 1 && c@[j] > 0 implies #[trigger] lists_tile(r@, j) by {
                    if j < i {
                        assert(lists_tile(before, j));
                        let k = choose|k: int| 0 <= k < before.len() && (#[trigger] before[k]).id == j;
                        assert(r@[k] == before[k]);
                    } else {
                        assert(r@[before.len() as int].id == j);
                    }
                }
            }
        }
        i += 1;
    }
    r
}

/// Facts about a list that survive when all its entries are kept.
proof fn lemma_extend(a: Seq<HandStructure>, b: Seq<HandStructure>)
    requires
        keeps(a, b),
    ensures
        (exists|j: int| 0 <= j < a.len() && is_kokushi_variant(#[trigger] a[j]))
            ==> (exists|j: int| 0 <= j < b.len() && is_kokushi_variant(#[trigger] b[j])),
        (exists|j: int| 0 <= j < a.len() && is_chiitoitsu_variant(#[trigger] a[j]))
            ==> (exists|j: int| 0 <= j < b.len() && is_chiitoitsu_variant(#[trigger] b[j])),
        forall|q: int, ms: Seq<Meld>| #[trigger] has_standard(a, q, ms) ==> has_standard(b, q, ms),
{
    if exists|j: int| 0 <= j < a.len() && is_kokushi_variant(#[trigger] a[j]) {
        let j = choose|j: int| 0 <= j < a.len() && is_kokushi_variant(#[trigger] a[j]);
        assert(lists_reading(b, a[j]));
        let y = choose|y: int| 0 <= y < b.len() && #[trigger] b[y] == a[j];
        assert(is_kokushi_variant(b[y]));
    }
    if exists|j: int| 0 <= j < a.len() && is_chiitoitsu_variant(#[trigger] a[j]) {
        let j = choose|j: int| 0 <= j < a.len() && is_chiitoitsu_variant(#[trigger] a[j]);
        assert(lists_reading(b, a[j]));
        let y = choose|y: int| 0 <= y < b.len() && #[trigger] b[y] == a[j];
        assert(is_chiitoitsu_variant(b[y]));
    }
    assert forall|q: int, ms: Seq<Meld>| #[trigger] has_standard(a, q, ms) implies has_standard(b, q, ms) by {
        let j = choose|j: int| 0 <= j < a.len() && standard_matches(#[trigger] a[j], q, ms);
        assert(lists_reading(b, a[j]));
        let y = choose|y: int| 0 <= y < b.len() && #[trigger] b[y] == a[j];
        assert(standard_matches(b[y], q, ms));
    }
}

/// Correct readings of `c` stay correct after `h`, itself correct, is added.
proof fn lemma_all_ok(c: Seq<u8>, a: Seq<HandStructure>, b: Seq<HandStructure>, h: HandStructure)
    requires
        forall|j: int| 0 <= j < a.len() ==> structure_ok(c, #[trigger] a[j]),
        structure_ok(c, h),
        came_from(a, b, h),
    ensures
        forall|j: int| 0 <= j < b.len() ==> structure_ok(c, #[trigger] b[j]),
{
    assert forall|j: int| 0 <= j < b.len() implies structure_ok(c, #[trigger] b[j]) by {
        if b[j] != h {
            assert(lists_reading(a, b[j]));
            let y = choose|y: int| 0 <= y < a.len() && #[trigger] a[y] == b[j];
            assert(structure_ok(c, a[y]));
        }
    }
}

/// A strictly sorted list has no two equal readings.
proof fn lemma_sorted_distinct(res: Seq<HandStructure>)
    requires
        readings_sorted(res),
        all_ids_ok(res),
    ensures
        pairwise_distinct(res),
{
    assert forall|i: int, j: int| 0 <= i < j < res.len() implies !structure_eq(#[trigger] res[i], #[trigger] res[j]) by {
        lemma_key_exact(res[i], res[j]);
        lemma_seq_lt_irreflexive(reading_key(res[i]));
    }
}

/// Every distinct reading of the hand, each once, Standard melds in canonical order.
pub fn decompose_hand(counts: &TileCounts) -> (res: Vec<HandStructure>)
    requires
        counts.wf(),
    ensures
        decomposition_of(counts.counts@, res@),
{
    let c = &counts.counts;
    let mut results: Vec<HandStructure> = Vec::new();
    match check_kokushi(counts) {
        Some(t) => {
            results.push(HandStructure::Kokushi { pair: t });
            assert(is_kokushi_variant(results@[0]));
        },
        None => {},
    }
    if is_chiitoitsu(counts) {
        let pairs = pair_tiles(c);
        let ghost before = results@;
        let ghost h = HandStructure::Chiitoitsu { pairs };
        proof {
            assert(structure_ok(c@, h));
            assert(all_ids_ok(before));
        }
        insert_sorted(&mut results, HandStructure::Chiitoitsu { pairs });
        proof {
            lemma_extend(before, results@);
            let j = choose|j: int| 0 <= j < results@.len() && structure_eq(#[trigger] results@[j], h);
            assert(is_chiitoitsu_variant(results@[j]));
            lemma_all_ok(c@, before, results@, h);
        }
    }
    let mut p: usize = 0;
    while p < 34
        invariant
            p <= 34,
            c@ == counts.counts@,
            valid_counts(c@),
            forall|j: int| 0 <= j < results@.len() ==> structure_ok(c@, #[trigger] results@[j]),
            all_ids_ok(results@),
            readings_sorted(results@),
            is_kokushi(c@) ==> exists|j: int| 0 <= j < results@.len() && is_kokushi_variant(#[trigger] results@[j]),
            seven_pairs(c@) ==> exists|j: int| 0 <= j < results@.len() && is_chiitoitsu_variant(#[trigger] results@[j]),
            forall|q: int, ms: Seq<Meld>| 0 <= q < p && #[trigger] standard_valid(c@, q, ms) ==> has_standard(results@, q, ms),
        decreases 34 - p,
    {
        if c[p] >= 2 {
            let rest = take_pair(c, p);
            let combos = find_all_meld_combinations(rest, 4);
            let pair = Tile { id: p as u8 };
            let mut k: usize = 0;
            while k < combos.len()
                invariant
                    k <= combos@.len(),
                    p < 34,
                    pair.id == p,
                    c@ == counts.counts@,
                    valid_counts(c@),
                    c@[p as int] >= 2,
                    rest@ == minus_pair(c@, p as int),
                    forall|j: int| 0 <= j < combos@.len() ==> (#[trigger] combos@[j])@.len() == 4 && covers(rest@, combos@[j]@),
                    forall|j: int| 0 <= j < results@.len() ==> structure_ok(c@, #[trigger] results@[j]),
                    all_ids_ok(results@),
                    readings_sorted(results@),
                    is_kokushi(c@) ==> exists|j: int| 0 <= j < results@.len() && is_kokushi_variant(#[trigger] results@[j]),
                    seven_pairs(c@) ==> exists|j: int| 0 <= j < results@.len() && is_chiitoitsu_variant(#[trigger] results@[j]),
                    forall|q: int, ms: Seq<Meld>| 0 <= q < p && #[trigger] standard_valid(c@, q, ms) ==> has_standard(results@, q, ms),
                    forall|x: int| 0 <= x < k ==> has_standard(results@, p as int, #[trigger] combos@[x]@),
                decreases combos@.len() - k,
            {
                let sorted = sort_melds(&combos[k]);
                let ghost combo = combos@[k as int]@;
                let h = HandStructure::Standard { melds: sorted, pair };
                proof {
                    assert(combos@[k as int]@.len() == 4 && covers(rest@, combo));
                    lemma_cover_perm(rest@, combo, sorted@);
                    assert(standard_valid(c@, p as int, sorted@));
                    assert(structure_ok(c@, h));
                }
                let ghost before = results@;
                proof {
                    assert forall|m: int| 0 <= m < sorted@.len() implies meld_wf(#[trigger] sorted@[m]) by {
                        assert(covers(minus_pair(c@, p as int), sorted@));
                    }
                    assert(structure_ok_ids(h));
                }
                insert_sorted(&mut results, h);
                proof {
                    lemma_extend(before, results@);
                    lemma_all_ok(c@, before, results@, h);
                    let j = choose|j: int| 0 <= j < results@.len() && structure_eq(#[trigger] results@[j], h);
                    assert(standard_matches(results@[j], p as int, combo));
                    assert(has_standard(results@, p as int, combo));
                    assert forall|x: int| 0 <= x < k + 1 implies has_standard(results@, p as int, #[trigger] combos@[x]@) by {
                        if x < k {
                            assert(has_standard(before, p as int, combos@[x]@));
                        }
                    }
                    assert forall|q: int, ms: Seq<Meld>| 0 <= q < p && #[trigger] standard_valid(c@, q, ms) implies has_standard(results@, q, ms) by {
                        assert(has_standard(before, q, ms));
                    }
                }
                k += 1;
            }
            proof {
                assert forall|q: int, ms: Seq<Meld>| 0 <= q < p + 1 && #[trigger] standard_valid(c@, q, ms) implies has_standard(results@, q, ms) by {
                    if q == p {
                        assert(covers(rest@, ms));
                        assert(has_perm(combos@, ms));
                        let x = choose|x: int| 0 <= x < combos@.len() && (#[trigger] combos@[x])@.to_multiset() == ms.to_multiset();
                        assert(has_standard(results@, p as int, combos@[x]@));
                        let j = choose|j: int| 0 <= j < results@.len() && standard_matches(#[trigger] results@[j], p as int, combos@[x]@);
                        assert(standard_matches(results@[j], p as int, ms));
                    }
                }
            }
        }
        p += 1;
    }
    proof {
        lemma_sorted_distinct(results@);
    }
    results
}


/// A hand is winning exactly when its decomposition lists at least one reading.
pub proof fn lemma_winning_iff_decomposable(c: Seq<u8>, res: Seq<HandStructure>)
    requires
        valid_counts(c),
        decomposition_of(c, res),
    ensures
        winning(c) <==> res.len() > 0,
{
    if res.len() > 0 {
        assert(structure_ok(c, res[0]));
        match res[0] {
            HandStructure::Standard { melds, pair } => {
                assert(covers(minus_pair(c, pair.id as int), melds@));
                assert(can_partition(minus_pair(c, pair.id as int), 4));
                assert(pair_works(c, pair.id as int));
            },
            HandStructure::Chiitoitsu { pairs } => {},
            HandStructure::Kokushi { pair } => {
                assert(kokushi_pair(c, pair.id as int));
            },
        }
    }
    if is_standard(c) {
        let p = choose|p: int| #[trigger] pair_works(c, p);
        let ms = choose|ms: Seq<Meld>| ms.len() == 4 && #[trigger] covers(minus_pair(c, p), ms);
        assert(standard_valid(c, p, ms));
        assert(has_standard(res, p, ms));
    }
}

/// The four melds of a standard reading, with two copies of its pair, give
/// back every count of the hand.
pub proof fn lemma_standard_round_trip(c: Seq<u8>, p: int, ms: Seq<Meld>)
    requires
        standard_valid(c, p, ms),
    ensures
        forall|t: int| 0 <= t < 34 ==> #[trigger] melds_cnt(ms, t) + (if t == p { 2int } else { 0int }) == c[t] as int,
{
    assert forall|t: int| 0 <= t < 34 implies #[trigger] melds_cnt(ms, t) + (if t == p { 2int } else { 0int }) == c[t] as int by {
        assert(melds_cnt(ms, t) == minus_pair(c, p)[t] as int);
    }
}


/// Lexicographic order on key sequences; a proper prefix comes first.
pub open spec fn seq_lt(a: Seq<u32>, b: Seq<u32>) -> bool
    decreases a.len(),
{
    if a.len() == 0 {
        b.len() > 0
    } else if b.len() == 0 {
        false
    } else if a[0] != b[0] {
        a[0] < b[0]
    } else {
        seq_lt(a.drop_first(), b.drop_first())
    }
}

/// The sort key of a reading: thirteen orphans, then seven pairs, then
/// standard readings; within a kind by pair, then by melds in canonical order.
pub open spec fn reading_key(h: HandStructure) -> Seq<u32> {
    match h {
        HandStructure::Kokushi { pair } => seq![0u32, pair.id as u32],
        HandStructure::Chiitoitsu { pairs } => seq![1u32] + pairs@.map_values(|t: Tile| t.id as u32),
        HandStructure::Standard { melds, pair } => seq![2u32, pair.id as u32] + melds@.map_values(
            |m: Meld| meld_key(m) as u32,
        ),
    }
}

/// Readings in strictly increasing key order.
pub open spec fn readings_sorted(res: Seq<HandStructure>) -> bool {
    forall|i: int, j: int| 0 <= i < j < res.len() ==> seq_lt(reading_key(#[trigger] res[i]), reading_key(#[trigger] res[j]))
}

pub proof fn lemma_seq_lt_irreflexive(a: Seq<u32>)
    ensures
        !seq_lt(a, a),
    decreases a.len(),
{
    if a.len() > 0 {
        lemma_seq_lt_irreflexive(a.drop_first());
    }
}

pub proof fn lemma_seq_lt_transitive(a: Seq<u32>, b: Seq<u32>, c: Seq<u32>)
    requires
        seq_lt(a, b),
        seq_lt(b, c),
    ensures
        seq_lt(a, c),
    decreases a.len(),
{
    if a.len() > 0 && b.len() > 0 && c.len() > 0 && a[0] == b[0] && b[0] == c[0] {
        lemma_seq_lt_transitive(a.drop_first(), b.drop_first(), c.drop_first());
    }
}

pub proof fn lemma_seq_lt_total(a: Seq<u32>, b: Seq<u32>)
    requires
        a != b,
    ensures
        seq_lt(a, b) || seq_lt(b, a),
    decreases a.len(),
{
    if a.len() > 0 && b.len() > 0 && a[0] == b[0] {
        if a.drop_first() == b.drop_first() {
            assert(a =~= seq![a[0]] + a.drop_first());
            assert(b =~= seq![b[0]] + b.drop_first());
        }
        lemma_seq_lt_total(a.drop_first(), b.drop_first());
    } else if a.len() == 0 && b.len() == 0 {
        assert(a =~= b);
    }
}

/// Equal readings have equal keys, and equal keys come only from equal readings.
pub proof fn lemma_key_exact(a: HandStructure, b: HandStructure)
    requires
        structure_ok_ids(a),
        structure_ok_ids(b),
    ensures
        structure_eq(a, b) <==> reading_key(a) == reading_key(b),
{
    let ka = reading_key(a);
    let kb = reading_key(b);
    if ka == kb {
        match (a, b) {
            (HandStructure::Standard { melds: m1, pair: p1 }, HandStructure::Standard { melds: m2, pair: p2 }) => {
                let f = |m: Meld| meld_key(m) as u32;
                assert(ka[1] == kb[1]);
                assert(ka.len() == kb.len());
                assert(m1@.len() == m2@.len());
                assert forall|i: int| 0 <= i < m1@.len() implies m1@[i] == m2@[i] by {
                    assert(ka[i + 2] == f(m1@[i]));
                    assert(kb[i + 2] == f(m2@[i]));
                    assert(meld_wf(m1@[i]) && meld_wf(m2@[i]));
                }
                assert(m1@ =~= m2@);
            },
            (HandStructure::Chiitoitsu { pairs: a1 }, HandStructure::Chiitoitsu { pairs: a2 }) => {
                assert(ka.len() == kb.len());
                assert forall|i: int| 0 <= i < a1@.len() implies a1@[i] == a2@[i] by {
                    assert(ka[i + 1] == kb[i + 1]);
                }
                assert(a1@ =~= a2@);
            },
            (HandStructure::Kokushi { pair: p1 }, HandStructure::Kokushi { pair: p2 }) => {
                assert(ka[1] == kb[1]);
            },
            (HandStructure::Standard { .. }, _) => {
                assert(ka[0] != kb[0]);
            },
            (HandStructure::Chiitoitsu { .. }, _) => {
                assert(ka[0] != kb[0]);
            },
            (HandStructure::Kokushi { .. }, _) => {
                assert(ka[0] != kb[0]);
            },
        }
    }
}

/// Tile ids and melds of a reading are in range, so its key loses nothing.
pub open spec fn structure_ok_ids(h: HandStructure) -> bool {
    match h {
        HandStructure::Standard { melds, pair } => forall|i: int| 0 <= i < melds@.len() ==> meld_wf(#[trigger] melds@[i]),
        HandStructure::Chiitoitsu { pairs } => true,
        HandStructure::Kokushi { pair } => true,
    }
}


/// The sort key of `h`.
fn key_of(h: &HandStructure) -> (r: Vec<u32>)
    ensures
        r@ == reading_key(*h),
{
    let mut r: Vec<u32> = Vec::new();
    match h {
        HandStructure::Kokushi { pair } => {
            r.push(0);
            r.push(pair.id as u32);
            assert(r@ =~= reading_key(*h));
        },
        HandStructure::Chiitoitsu { pairs } => {
            r.push(1);
            let mut i: usize = 0;
            while i < pairs.len()
                invariant
                    i <= pairs@.len(),
                    r@.len() == i + 1,
                    r@[0] == 1u32,
                    forall|x: int| 0 <= x < i ==> r@[x + 1] == (#[trigger] pairs@[x]).id as u32,
                decreases pairs@.len() - i,
            {
                r.push(pairs[i].id as u32);
                i += 1;
            }
            assert(r@ =~= reading_key(*h));
        },
        HandStructure::Standard { melds, pair } => {
            r.push(2);
            r.push(pair.id as u32);
            let mut i: usize = 0;
            while i < melds.len()
                invariant
                    i <= melds@.len(),
                    r@.len() == i + 2,
                    r@[0] == 2u32,
                    r@[1] == pair.id as u32,
                    forall|x: int| 0 <= x < i ==> r@[x + 2] == meld_key(#[trigger] melds@[x]) as u32,
                decreases melds@.len() - i,
            {
                let k = meld_key_exec(melds[i]);
                r.push(k);
                i += 1;
            }
            assert(r@ =~= reading_key(*h));
        },
    }
    r
}

/// Whether key `a` comes strictly before key `b`.
fn key_lt(a: &Vec<u32>, b: &Vec<u32>) -> (r: bool)
    ensures
        r == seq_lt(a@, b@),
{
    let mut i: usize = 0;
    assert(a@.subrange(0, a@.len() as int) =~= a@);
    assert(b@.subrange(0, b@.len() as int) =~= b@);
    while i < a.len() && i < b.len() && a[i] == b[i]
        invariant
            i <= a@.len(),
            i <= b@.len(),
            seq_lt(a@, b@) == seq_lt(a@.subrange(i as int, a@.len() as int), b@.subrange(i as int, b@.len() as int)),
        decreases a@.len() - i,
    {
        proof {
            let sa = a@.subrange(i as int, a@.len() as int);
            let sb = b@.subrange(i as int, b@.len() as int);
            assert(sa.drop_first() =~= a@.subrange(i + 1, a@.len() as int));
            assert(sb.drop_first() =~= b@.subrange(i + 1, b@.len() as int));
        }
        i += 1;
    }
    proof {
        let sa = a@.subrange(i as int, a@.len() as int);
        let sb = b@.subrange(i as int, b@.len() as int);
        assert(sa.len() == a@.len() - i && sb.len() == b@.len() - i);
        if i < a@.len() && i < b@.len() {
            assert(sa[0] == a@[i as int] && sb[0] == b@[i as int]);
        }
    }
    if i == a.len() {
        i < b.len()
    } else if i == b.len() {
        false
    } else {
        a[i] < b[i]
    }
}

fn same_keys(a: &Vec<u32>, b: &Vec<u32>) -> (r: bool)
    ensures
        r == (a@ == b@),
{
    if a.len() != b.len() {
        return false;
    }
    let mut i: usize = 0;
    while i < a.len()
        invariant
            i <= a@.len(),
            a@.len() == b@.len(),
            forall|x: int| 0 <= x < i ==> a@[x] == b@[x],
        decreases a@.len() - i,
    {
        if a[i] != b[i] {
            return false;
        }
        i += 1;
    }
    assert(a@ =~= b@);
    true
}

pub open spec fn lists_reading(res: Seq<HandStructure>, h: HandStructure) -> bool {
    exists|y: int| 0 <= y < res.len() && #[trigger] res[y] == h
}

/// Every entry of `a` is still in `b`.
pub open spec fn keeps(a: Seq<HandStructure>, b: Seq<HandStructure>) -> bool {
    forall|x: int| 0 <= x < a.len() ==> lists_reading(b, #[trigger] a[x])
}

/// Every entry of `b` is `h` or was in `a`.
pub open spec fn came_from(a: Seq<HandStructure>, b: Seq<HandStructure>, h: HandStructure) -> bool {
    forall|y: int| 0 <= y < b.len() ==> #[trigger] b[y] == h || lists_reading(a, b[y])
}

pub open spec fn all_ids_ok(res: Seq<HandStructure>) -> bool {
    forall|j: int| 0 <= j < res.len() ==> structure_ok_ids(#[trigger] res[j])
}

/// Puts `h` in its place in the sorted list, unless an equal reading is there.
fn insert_sorted(res: &mut Vec<HandStructure>, h: HandStructure)
    requires
        readings_sorted(old(res)@),
        all_ids_ok(old(res)@),
        structure_ok_ids(h),
    ensures
        readings_sorted(final(res)@),
        all_ids_ok(final(res)@),
        contains_eq(final(res)@, h),
        keeps(old(res)@, final(res)@),
        came_from(old(res)@, final(res)@, h),
{
    let hk = key_of(&h);
    let mut k: usize = 0;
    while k < res.len() && key_lt(&key_of(&res[k]), &hk)
        invariant
            k <= res@.len(),
            hk@ == reading_key(h),
            forall|x: int| 0 <= x < k ==> seq_lt(reading_key(#[trigger] res@[x]), hk@),
        decreases res@.len() - k,
    {
        k += 1;
    }
    let ghost before = res@;
    if k < res.len() {
        let rk = key_of(&res[k]);
        if same_keys(&rk, &hk) {
            proof {
                lemma_key_exact(res@[k as int], h);
                assert(structure_eq(res@[k as int], h));
                assert forall|x: int| 0 <= x < before.len() implies lists_reading(res@, #[trigger] before[x]) by {
                    assert(res@[x] == before[x]);
                }
                assert forall|y: int| 0 <= y < res@.len() implies #[trigger] res@[y] == h || lists_reading(before, res@[y]) by {
                    assert(before[y] == res@[y]);
                }
            }
            return;
        }
        proof {
            lemma_seq_lt_total(rk@, hk@);
        }
    }
    res.insert(k, h);
    proof {
        assert(res@ == before.insert(k as int, h));
        assert(structure_eq(res@[k as int], h));
        assert forall|a: int, b: int| 0 <= a < b < res@.len() implies seq_lt(reading_key(#[trigger] res@[a]), reading_key(#[trigger] res@[b])) by {
            if b < k {
                assert(res@[a] == before[a] && res@[b] == before[b]);
            } else if b == k {
                assert(res@[a] == before[a]);
            } else if a == k {
                assert(res@[b] == before[b - 1]);
                if b - 1 > k {
                    assert(seq_lt(reading_key(before[k as int]), reading_key(before[b - 1])));
                    lemma_seq_lt_transitive(hk@, reading_key(before[k as int]), reading_key(before[b - 1]));
                }
            } else if a < k {
                assert(res@[a] == before[a] && res@[b] == before[b - 1]);
            } else {
                assert(res@[a] == before[a - 1] && res@[b] == before[b - 1]);
            }
        }
        assert forall|j: int| 0 <= j < res@.len() implies structure_ok_ids(#[trigger] res@[j]) by {
            if j < k {
                assert(res@[j] == before[j]);
            } else if j > k {
                assert(res@[j] == before[j - 1]);
            }
        }
        assert forall|x: int| 0 <= x < before.len() implies lists_reading(res@, #[trigger] before[x]) by {
            if x < k {
                assert(res@[x] == before[x]);
            } else {
                assert(res@[x + 1] == before[x]);
            }
        }
        assert forall|y: int| 0 <= y < res@.len() implies #[trigger] res@[y] == h || lists_reading(before, res@[y]) by {
            if y < k {
                assert(before[y] == res@[y]);
            } else if y > k {
                assert(before[y - 1] == res@[y]);
            }
        }
    }
}

} // verus!
