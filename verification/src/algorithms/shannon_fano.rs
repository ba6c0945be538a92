//! The Shannon-Fano coder.
//!
//! The symbols are ranked, the most frequent first. A range of symbols is
//! split in two: the upper part gets the bit 0, the lower part the bit 1, and
//! each part is split again until it holds one symbol. The upper part is the
//! shortest beginning of the range that weighs more than what follows the
//! symbol behind it.

use std::collections::HashMap;
use vstd::prelude::*;
use crate::algorithms::{create_probability_map, lemma_ranking, present, ranking};
use crate::bits::is_bits;
use crate::code_table::{code_of, prefix_free, table_view};
use crate::types::{FileStats, Probability};

verus! {

/// The weight of the symbols from `from` up to, not including, `to`.
pub open spec fn weight_sum(alphabet: Seq<Probability>, from: int, to: int) -> int
    decreases to - from,
{
    if from >= to {
        0
    } else {
        weight_sum(alphabet, from, to - 1) + alphabet[to - 1].1
    }
}

/// The symbols from `low` to `k` weigh more than those behind `k + 1`, up to
/// `high`.
pub open spec fn splits_at(alphabet: Seq<Probability>, low: int, high: int, k: int) -> bool {
    weight_sum(alphabet, low, k + 1) > weight_sum(alphabet, k + 2, high + 1)
}

/// `k` is the last symbol of the upper part of the range from `low` to
/// `high`: the first at which the range splits.
pub open spec fn is_split(alphabet: Seq<Probability>, low: int, high: int, k: int) -> bool {
    &&& low <= k < high
    &&& splits_at(alphabet, low, high, k)
    &&& forall|j: int| low <= j < k ==> !splits_at(alphabet, low, high, j)
}

/// The last symbol of the upper part of the range from `low` to `high`.
pub open spec fn split_index(alphabet: Seq<Probability>, low: int, high: int) -> int {
    choose|k: int| is_split(alphabet, low, high, k)
}

/// The bits that the symbol `i` gets within the range from `low` to `high`.
pub open spec fn range_code(alphabet: Seq<Probability>, low: int, high: int, i: int) -> Seq<u8>
    decreases high - low,
{
    let k = split_index(alphabet, low, high);
    if low < high && low <= k < high {
        if i <= k {
            seq![0u8] + range_code(alphabet, low, k, i)
        } else {
            seq![1u8] + range_code(alphabet, k + 1, high, i)
        }
    } else {
        Seq::empty()
    }
}

/// The code of the ranked symbols `alphabet`. A single symbol gets no
/// codeword.
pub open spec fn alphabet_codes(alphabet: Seq<Probability>) -> Map<u8, Seq<u8>> {
    Map::new(
        |b: u8| alphabet.len() >= 2 && exists|i: int| 0 <= i < alphabet.len() && alphabet[i].0 == b,
        |b: u8|
            {
                let i = choose|i: int| 0 <= i < alphabet.len() && alphabet[i].0 == b;
                range_code(alphabet, 0, alphabet.len() - 1, i)
            },
    )
}

/// The Shannon-Fano code of the bytes that `counts` counts.
pub open spec fn shannon_fano_codes(counts: Seq<u64>) -> Map<u8, Seq<u8>> {
    alphabet_codes(ranking(counts))
}

/// No byte stands twice in `alphabet`, and every symbol occurs.
pub open spec fn is_alphabet(alphabet: Seq<Probability>) -> bool {
    &&& alphabet.len() <= 256
    &&& forall|i: int| 0 <= i < alphabet.len() ==> (#[trigger] alphabet[i]).1 > 0
    &&& forall|i: int, j: int|
        0 <= i < alphabet.len() && 0 <= j < alphabet.len() && i != j ==> (#[trigger] alphabet[i]).0
            != (#[trigger] alphabet[j]).0
}

/// A range weighs nothing less than zero and no more than its counts can.
pub proof fn lemma_weight_sum_bounds(alphabet: Seq<Probability>, from: int, to: int)
    requires
        0 <= from <= to <= alphabet.len(),
    ensures
        0 <= weight_sum(alphabet, from, to) <= (to - from) * u64::MAX,
    decreases to - from,
{
    if from < to {
        lemma_weight_sum_bounds(alphabet, from, to - 1);
        assert((to - from) * u64::MAX == (to - 1 - from) * u64::MAX + u64::MAX)
            by (nonlinear_arith);
    }
}

/// A range weighs what its first symbol and the rest weigh.
pub proof fn lemma_weight_sum_front(alphabet: Seq<Probability>, from: int, to: int)
    requires
        0 <= from < to <= alphabet.len(),
    ensures
        weight_sum(alphabet, from, to) == alphabet[from].1 + weight_sum(alphabet, from + 1, to),
    decreases to - from,
{
    if from + 1 < to {
        lemma_weight_sum_front(alphabet, from, to - 1);
        assert(weight_sum(alphabet, from + 1, to) == weight_sum(alphabet, from + 1, to - 1)
            + alphabet[to - 1].1);
    } else {
        assert(weight_sum(alphabet, from, to - 1) == 0);
        assert(weight_sum(alphabet, from + 1, to) == 0);
    }
}

/// A range weighs no less than what is left of it when symbols go at its
/// front.
pub proof fn lemma_weight_sum_shrink(alphabet: Seq<Probability>, from: int, later: int, to: int)
    requires
        0 <= from <= later,
        to <= alphabet.len(),
    ensures
        0 <= weight_sum(alphabet, later, to) <= weight_sum(alphabet, from, to),
    decreases later - from,
{
    if later >= to {
        if from < to {
            lemma_weight_sum_bounds(alphabet, from, to);
        }
    } else if from < later {
        lemma_weight_sum_shrink(alphabet, from + 1, later, to);
        lemma_weight_sum_front(alphabet, from, to);
    } else {
        lemma_weight_sum_bounds(alphabet, from, to);
    }
}

/// The last symbol of the upper part of the range from `low` to `high`.
pub fn partition(alphabet: &[Probability], low: usize, high: usize) -> (split: usize)
    requires
        low < high < alphabet.len(),
        alphabet.len() <= 256,
        alphabet@[low as int].1 > 0,
    ensures
        is_split(alphabet@, low as int, high as int, split as int),
{
    let ghost first = low as int;
    let ghost last = high as int;
    let mut low = low;
    let mut high = high;

    let mut low_probability: u128 = 0;
    let mut high_probability: u128 = 0;

    while low <= high
        invariant
            0 <= first < last < alphabet.len() <= 256,
            alphabet@[first].1 > 0,
            first <= low <= last,
            low <= high + 2,
            high <= last,
            low == first ==> high == last,
            low > first ==> first <= high < last && low_probability > weight_sum(
                alphabet@,
                high + 2,
                last + 1,
            ),
            low > first && low <= high ==> low_probability <= high_probability,
            low_probability == weight_sum(alphabet@, first, low as int),
            high_probability == weight_sum(alphabet@, high + 1, last + 1),
            forall|j: int| first <= j < low - 1 ==> !splits_at(alphabet@, first, last, j),
        decreases high + 2 - low,
    {
        proof {
            lemma_weight_sum_bounds(alphabet@, first, low + 1);
            lemma_weight_sum_front(alphabet@, first, low + 1);
            lemma_weight_sum_shrink(alphabet@, first + 1, first + 1, low + 1);
            if low > first {
                // the range does not split at the symbol before `low`
                lemma_weight_sum_shrink(alphabet@, low as int + 1, high as int + 1, last + 1);
            }
        }
        low_probability += alphabet[low].1 as u128;
        low += 1;
        let ghost high_before = high;

        while low_probability > high_probability
            invariant_except_break
                low <= high + 1,
                low == first + 1 ==> low <= high,
            invariant
                0 <= first < last < alphabet.len() <= 256,
                first < low <= last,
                high <= high_before <= last,
                low_probability > weight_sum(alphabet@, high + 2, last + 1),
                low_probability == weight_sum(alphabet@, first, low as int),
                low_probability > 0,
                high_probability == weight_sum(alphabet@, high + 1, last + 1),
            ensures
                low <= high + 2,
                high <= high_before,
                first <= high < last,
                low <= high ==> low_probability <= high_probability,
            decreases high + 1 - low,
        {
            proof {
                lemma_weight_sum_bounds(alphabet@, high as int, last + 1);
                lemma_weight_sum_front(alphabet@, high as int, last + 1);
            }
            high_probability += alphabet[high].1 as u128;
            high -= 1;

            if low > high {
                break ;
            }
        }
    }
    proof {
        lemma_weight_sum_shrink(alphabet@, high as int + 2, low as int + 1, last + 1);
    }
    low - 1
}

/// `byte` is one of the symbols from `low` to `high`.
pub open spec fn in_range(alphabet: Seq<Probability>, low: int, high: int, byte: u8) -> bool {
    exists|i: int| low <= i <= high && (#[trigger] alphabet[i]).0 == byte
}

/// `byte` has in `after` the codeword that it has in `before`, or none in
/// either.
pub open spec fn untouched(before: Map<u8, Seq<u8>>, after: Map<u8, Seq<u8>>, byte: u8) -> bool {
    after.contains_key(byte) == before.contains_key(byte) && code_of(after, byte) == code_of(
        before,
        byte,
    )
}

/// A range has one split only.
pub proof fn lemma_split_unique(alphabet: Seq<Probability>, low: int, high: int, k: int)
    requires
        is_split(alphabet, low, high, k),
    ensures
        split_index(alphabet, low, high) == k,
{
    let c = split_index(alphabet, low, high);
    assert(is_split(alphabet, low, high, c));
    if c < k {
        assert(!splits_at(alphabet, low, high, c));
    }
    if k < c {
        assert(!splits_at(alphabet, low, high, k));
    }
}

/// Appends `bit` to the codeword of `byte`, which starts empty.
fn push_code_bit(codes_map: &mut HashMap<u8, Vec<u8>>, byte: u8, bit: u8)
    ensures
        table_view(final(codes_map)@) == table_view(old(codes_map)@).insert(
            byte,
            code_of(table_view(old(codes_map)@), byte).push(bit),
        ),
{
    broadcast use vstd::std_specs::hash::group_hash_axioms;

    let mut code = match codes_map.remove(&byte) {
        Some(code) => code,
        None => Vec::new(),
    };
    code.push(bit);
    codes_map.insert(byte, code);
    proof {
        assert(table_view(codes_map@) =~= table_view(old(codes_map)@).insert(
            byte,
            code_of(table_view(old(codes_map)@), byte).push(bit),
        ));
    }
}

/// Appends `bit` to the codeword of each symbol from `from` to `to`.
fn push_range_bit(
    alphabet: &[Probability],
    from: usize,
    to: usize,
    bit: u8,
    codes_map: &mut HashMap<u8, Vec<u8>>,
)
    requires
        is_alphabet(alphabet@),
        from <= to < alphabet.len(),
    ensures
        forall|b: u8|
            !(#[trigger] in_range(alphabet@, from as int, to as int, b)) ==> untouched(
                table_view(old(codes_map)@),
                table_view(final(codes_map)@),
                b,
            ),
        forall|i: int|
            from <= i <= to ==> table_view(final(codes_map)@).contains_key(
                (#[trigger] alphabet@[i]).0,
            ) && code_of(table_view(final(codes_map)@), alphabet@[i].0) == code_of(
                table_view(old(codes_map)@),
                alphabet@[i].0,
            ).push(bit),
{
    let mut at = from;
    while at <= to
        invariant
            is_alphabet(alphabet@),
            from <= at <= to + 1,
            to < alphabet.len(),
            forall|b: u8|
                !(#[trigger] in_range(alphabet@, from as int, at - 1, b)) ==> untouched(
                    table_view(old(codes_map)@),
                    table_view(codes_map@),
                    b,
                ),
            forall|i: int|
                from <= i < at ==> table_view(codes_map@).contains_key(
                    (#[trigger] alphabet@[i]).0,
                ) && code_of(table_view(codes_map@), alphabet@[i].0) == code_of(
                    table_view(old(codes_map)@),
                    alphabet@[i].0,
                ).push(bit),
        decreases to + 1 - at,
    {
        let ghost before = table_view(codes_map@);
        let byte = alphabet[at].0;
        proof {
            if in_range(alphabet@, from as int, at - 1, byte) {
                let i = choose|i: int| from <= i <= at - 1 && (#[trigger] alphabet@[i]).0 == byte;
                assert(alphabet@[at as int].0 != alphabet@[i].0);
            }
        }
        push_code_bit(codes_map, byte, bit);
        proof {
            assert forall|b: u8| !(#[trigger] in_range(
                alphabet@,
                from as int,
                at as int,
                b,
            )) implies untouched(table_view(old(codes_map)@), table_view(codes_map@), b) by {
                assert(alphabet@[at as int].0 != b);
                if in_range(alphabet@, from as int, at - 1, b) {
                    let i = choose|i: int| from <= i <= at - 1 && (#[trigger] alphabet@[i]).0 == b;
                    assert(from <= i <= at && alphabet@[i].0 == b);
                }
                assert(untouched(table_view(old(codes_map)@), before, b));
            }
            assert forall|i: int| from <= i < at + 1 implies table_view(codes_map@).contains_key(
                (#[trigger] alphabet@[i]).0,
            ) && code_of(table_view(codes_map@), alphabet@[i].0) == code_of(
                table_view(old(codes_map)@),
                alphabet@[i].0,
            ).push(bit) by {
                if i < at {
                    assert(alphabet@[i].0 != alphabet@[at as int].0);
                    assert(before.contains_key(alphabet@[i].0));
                }
            }
        }
        at += 1;
    }
    proof {
        assert forall|b: u8| !(#[trigger] in_range(
            alphabet@,
            from as int,
            to as int,
            b,
        )) implies untouched(table_view(old(codes_map)@), table_view(codes_map@), b) by {
            assert(!in_range(alphabet@, from as int, at - 1, b));
        }
    }
}

/// Gives each symbol from `set_start` to `set_end` the bits of its place in
/// that range, behind the bits that its codeword holds already.
pub fn enc(
    alphabet: &[Probability],
    set_start: usize,
    set_end: usize,
    codes_map: &mut HashMap<u8, Vec<u8>>,
)
    requires
        is_alphabet(alphabet@),
        set_start <= set_end < alphabet.len(),
    ensures
        forall|b: u8|
            !(#[trigger] in_range(alphabet@, set_start as int, set_end as int, b)) ==> untouched(
                table_view(old(codes_map)@),
                table_view(final(codes_map)@),
                b,
            ),
        forall|i: int|
            set_start <= i <= set_end ==> (table_view(final(codes_map)@).contains_key(
                (#[trigger] alphabet@[i]).0,
            ) == (set_start < set_end || table_view(old(codes_map)@).contains_key(
                alphabet@[i].0,
            ))) && code_of(table_view(final(codes_map)@), alphabet@[i].0) == code_of(
                table_view(old(codes_map)@),
                alphabet@[i].0,
            ) + range_code(alphabet@, set_start as int, set_end as int, i),
    decreases set_end - set_start,
{
    if set_start == set_end {
        proof {
            assert forall|i: int| set_start <= i <= set_end implies code_of(
                table_view(codes_map@),
                (#[trigger] alphabet@[i]).0,
            ) == code_of(table_view(codes_map@), alphabet@[i].0) + range_code(
                alphabet@,
                set_start as int,
                set_end as int,
                i,
            ) by {
                assert(code_of(table_view(codes_map@), alphabet@[i].0) + Seq::<u8>::empty()
                    =~= code_of(table_view(codes_map@), alphabet@[i].0));
            }
        }
        return ;
    }
    let split_index = partition(alphabet, set_start, set_end);
    proof {
        lemma_split_unique(alphabet@, set_start as int, set_end as int, split_index as int);
    }

    push_range_bit(alphabet, set_start, split_index, 0, codes_map);
    let ghost upper = table_view(codes_map@);
    push_range_bit(alphabet, split_index + 1, set_end, 1, codes_map);
    let ghost marked = table_view(codes_map@);

    enc(alphabet, set_start, split_index, codes_map);
    let ghost half = table_view(codes_map@);
    enc(alphabet, split_index + 1, set_end, codes_map);

    proof {
        let done = table_view(codes_map@);
        let before = table_view(old(codes_map)@);
        let a = alphabet@;
        let lo = set_start as int;
        let hi = set_end as int;
        let k = split_index as int;
        assert forall|i: int, j: int| lo <= i <= k && k < j <= hi implies !in_range(
            a,
            k + 1,
            hi,
            (#[trigger] a[i]).0,
        ) && !in_range(a, lo, k, (#[trigger] a[j]).0) by {
            if in_range(a, k + 1, hi, a[i].0) {
                let t = choose|t: int| k + 1 <= t <= hi && (#[trigger] a[t]).0 == a[i].0;
                assert(a[t].0 != a[i].0);
            }
            if in_range(a, lo, k, a[j].0) {
                let t = choose|t: int| lo <= t <= k && (#[trigger] a[t]).0 == a[j].0;
                assert(a[t].0 != a[j].0);
            }
        }
        assert forall|b: u8| !(#[trigger] in_range(a, lo, hi, b)) implies untouched(
            before,
            done,
            b,
        ) by {
            if in_range(a, lo, k, b) {
                let t = choose|t: int| lo <= t <= k && (#[trigger] a[t]).0 == b;
                assert(lo <= t <= hi && a[t].0 == b);
            }
            if in_range(a, k + 1, hi, b) {
                let t = choose|t: int| k + 1 <= t <= hi && (#[trigger] a[t]).0 == b;
                assert(lo <= t <= hi && a[t].0 == b);
            }
            assert(untouched(before, upper, b));
            assert(untouched(upper, marked, b));
            assert(untouched(marked, half, b));
            assert(untouched(half, done, b));
        }
        assert forall|i: int| lo <= i <= hi implies done.contains_key((#[trigger] a[i]).0)
            && code_of(done, a[i].0) == code_of(before, a[i].0) + range_code(a, lo, hi, i) by {
            let b = a[i].0;
            if i <= k {
                assert(!in_range(a, k + 1, hi, b)) by {
                    assert(lo <= i <= k && k < hi <= hi);
                    assert(!in_range(a, k + 1, hi, a[i].0) && !in_range(a, lo, k, a[hi].0));
                }
                assert(code_of(upper, b) == code_of(before, b).push(0));
                assert(untouched(upper, marked, b));
                assert(code_of(half, b) == code_of(marked, b) + range_code(a, lo, k, i));
                assert(untouched(half, done, b));
                assert(code_of(before, b).push(0) + range_code(a, lo, k, i) =~= code_of(before, b)
                    + (seq![0u8] + range_code(a, lo, k, i)));
            } else {
                assert(!in_range(a, lo, k, b)) by {
                    assert(lo <= lo <= k && k < i <= hi);
                    assert(!in_range(a, k + 1, hi, a[lo].0) && !in_range(a, lo, k, a[i].0));
                }
                assert(untouched(before, upper, b));
                assert(code_of(marked, b) == code_of(upper, b).push(1));
                assert(untouched(marked, half, b));
                assert(code_of(done, b) == code_of(half, b) + range_code(a, k + 1, hi, i));
                assert(code_of(before, b).push(1) + range_code(a, k + 1, hi, i) =~= code_of(
                    before,
                    b,
                ) + (seq![1u8] + range_code(a, k + 1, hi, i)));
            }
        }
    }
}

/// The Shannon-Fano code of the bytes that `stats` counts. At least one byte
/// occurs.
pub fn encode(stats: FileStats) -> (codes_map: HashMap<u8, Vec<u8>>)
    requires
        exists|b: int| 0 <= b < 256 && stats.0@[b] != 0,
    ensures
        table_view(codes_map@) == shannon_fano_codes(stats.0@),
{
    let probs = create_probability_map(&stats.0);
    let probs = probs.as_slice();
    let mut codes_map: HashMap<u8, Vec<u8>> = HashMap::new();
    proof {
        lemma_ranking(stats.0@, 256);
        let b = choose|b: int| 0 <= b < 256 && stats.0@[b] != 0;
        assert((b as u8) < 256 && stats.0@[(b as u8) as int] != 0);
    }

    // actually encoding
    enc(probs, 0, probs.len() - 1, &mut codes_map);

    proof {
        let a = probs@;
        let codes = table_view(codes_map@);
        assert forall|b: u8| codes.contains_key(b) == alphabet_codes(a).contains_key(b) by {
            if !in_range(a, 0, a.len() - 1, b) {
                assert(untouched(Map::<u8, Seq<u8>>::empty(), codes, b));
            }
            if in_range(a, 0, a.len() - 1, b) {
                let i = choose|i: int| 0 <= i <= a.len() - 1 && (#[trigger] a[i]).0 == b;
                assert(0 <= i < a.len() && a[i].0 == b);
            }
            if exists|i: int| 0 <= i < a.len() && a[i].0 == b {
                let i = choose|i: int| 0 <= i < a.len() && a[i].0 == b;
                assert(0 <= i <= a.len() - 1 && a[i].0 == b);
            }
        }
        assert forall|b: u8| codes.contains_key(b) implies codes[b] == alphabet_codes(a)[b] by {
            let i = choose|i: int| 0 <= i < a.len() && a[i].0 == b;
            assert(code_of(codes, a[i].0) == Seq::<u8>::empty() + range_code(
                a,
                0,
                a.len() - 1,
                i,
            ));
            assert(Seq::<u8>::empty() + range_code(a, 0, a.len() - 1, i) =~= range_code(
                a,
                0,
                a.len() - 1,
                i,
            ));
        }
        assert(codes =~= alphabet_codes(a));
    }
    codes_map
}

// ---------------------------------------------------------------------------
// What the code guarantees

/// The first symbol at which the range splits, up to one at which it does.
pub proof fn lemma_least_split(alphabet: Seq<Probability>, low: int, high: int, upto: int) -> (k:
    int)
    requires
        low <= upto < high,
        splits_at(alphabet, low, high, upto),
    ensures
        low <= k <= upto,
        splits_at(alphabet, low, high, k),
        forall|j: int| low <= j < k ==> !splits_at(alphabet, low, high, j),
    decreases upto - low,
{
    if exists|j: int| low <= j < upto && splits_at(alphabet, low, high, j) {
        let j = choose|j: int| low <= j < upto && splits_at(alphabet, low, high, j);
        lemma_least_split(alphabet, low, high, j)
    } else {
        upto
    }
}

/// A range of two or more symbols has a split.
pub proof fn lemma_split_exists(alphabet: Seq<Probability>, low: int, high: int)
    requires
        0 <= low < high < alphabet.len(),
        alphabet[low].1 > 0,
    ensures
        is_split(alphabet, low, high, split_index(alphabet, low, high)),
{
    lemma_weight_sum_front(alphabet, low, high);
    lemma_weight_sum_shrink(alphabet, low + 1, low + 1, high);
    assert(weight_sum(alphabet, high + 1, high + 1) == 0);
    let k = lemma_least_split(alphabet, low, high, high - 1);
    assert(is_split(alphabet, low, high, k));
}

/// Within a range no symbol gets bits that begin the bits of another.
pub proof fn lemma_range_codes(alphabet: Seq<Probability>, low: int, high: int, i: int, j: int)
    requires
        0 <= low <= high < alphabet.len(),
        forall|t: int| 0 <= t < alphabet.len() ==> (#[trigger] alphabet[t]).1 > 0,
        low <= i <= high,
        low <= j <= high,
        i != j,
    ensures
        !range_code(alphabet, low, high, i).is_prefix_of(range_code(alphabet, low, high, j)),
    decreases high - low,
{
    lemma_split_exists(alphabet, low, high);
    let k = split_index(alphabet, low, high);
    let ci = range_code(alphabet, low, high, i);
    let cj = range_code(alphabet, low, high, j);
    if i <= k && j <= k {
        lemma_range_codes(alphabet, low, k, i, j);
        let si = range_code(alphabet, low, k, i);
        let sj = range_code(alphabet, low, k, j);
        if ci.is_prefix_of(cj) {
            assert(si =~= sj.subrange(0, si.len() as int)) by {
                assert forall|t: int| 0 <= t < si.len() implies si[t] == sj[t] by {
                    assert(ci[t + 1] == cj.subrange(0, ci.len() as int)[t + 1]);
                }
            }
        }
    } else if i > k && j > k {
        lemma_range_codes(alphabet, k + 1, high, i, j);
        let si = range_code(alphabet, k + 1, high, i);
        let sj = range_code(alphabet, k + 1, high, j);
        if ci.is_prefix_of(cj) {
            assert(si =~= sj.subrange(0, si.len() as int)) by {
                assert forall|t: int| 0 <= t < si.len() implies si[t] == sj[t] by {
                    assert(ci[t + 1] == cj.subrange(0, ci.len() as int)[t + 1]);
                }
            }
        }
    } else {
        if ci.is_prefix_of(cj) {
            assert(ci[0] == cj.subrange(0, ci.len() as int)[0]);
        }
    }
}

/// The Shannon-Fano code gives a codeword to each byte that occurs and to no
/// other, and no codeword is the beginning of another. Where fewer than two
/// bytes occur, no byte gets a codeword.
pub proof fn lemma_shannon_fano_code(counts: Seq<u64>)
    requires
        counts.len() == 256,
    ensures
        prefix_free(shannon_fano_codes(counts)),
        ranking(counts).len() >= 2 ==> shannon_fano_codes(counts).dom() == present(counts),
        ranking(counts).len() < 2 ==> shannon_fano_codes(counts) == Map::<u8, Seq<u8>>::empty(),
{
    let a = ranking(counts);
    let codes = shannon_fano_codes(counts);
    lemma_ranking(counts, 256);
    assert forall|x: u8, y: u8|
        codes.contains_key(x) && codes.contains_key(y) && x != y implies !(#[trigger] codes[x]).is_prefix_of(
        #[trigger] codes[y],
    ) by {
        let i = choose|i: int| 0 <= i < a.len() && a[i].0 == x;
        let j = choose|j: int| 0 <= j < a.len() && a[j].0 == y;
        lemma_range_codes(a, 0, a.len() - 1, i, j);
    }
    if a.len() >= 2 {
        assert forall|b: u8| codes.contains_key(b) == present(counts).contains(b) by {
            if codes.contains_key(b) {
                let i = choose|i: int| 0 <= i < a.len() && a[i].0 == b;
                assert(a[i].1 == counts[a[i].0 as int]);
            }
            if present(counts).contains(b) {
                assert(b < 256 && counts[b as int] != 0);
                let j = choose|j: int| 0 <= j < a.len() && (#[trigger] a[j]).0 == b;
                assert(0 <= j < a.len() && a[j].0 == b);
            }
        }
        assert(codes.dom() =~= present(counts));
    } else {
        assert(codes =~= Map::<u8, Seq<u8>>::empty());
    }
}

/// A symbol gets fewer bits than its range has symbols.
pub proof fn lemma_range_code_len(alphabet: Seq<Probability>, low: int, high: int, i: int)
    requires
        low <= high,
    ensures
        range_code(alphabet, low, high, i).len() <= high - low,
    decreases high - low,
{
    let k = split_index(alphabet, low, high);
    if low < high && low <= k < high {
        if i <= k {
            lemma_range_code_len(alphabet, low, k, i);
        } else {
            lemma_range_code_len(alphabet, k + 1, high, i);
        }
    }
}

/// No codeword of the Shannon-Fano code is longer than 255 bits.
pub proof fn lemma_shannon_fano_code_lengths(counts: Seq<u64>)
    requires
        counts.len() == 256,
    ensures
        forall|b: u8|
            shannon_fano_codes(counts).contains_key(b) ==> (#[trigger] shannon_fano_codes(
                counts,
            )[b]).len() <= 255,
{
    let a = ranking(counts);
    lemma_ranking(counts, 256);
    assert forall|b: u8| shannon_fano_codes(counts).contains_key(b) implies (
    #[trigger] shannon_fano_codes(counts)[b]).len() <= 255 by {
        let i = choose|i: int| 0 <= i < a.len() && a[i].0 == b;
        lemma_range_code_len(a, 0, a.len() - 1, i);
    }
}

/// The bits that a symbol gets are bits.
pub proof fn lemma_range_code_bits(alphabet: Seq<Probability>, low: int, high: int, i: int)
    ensures
        is_bits(range_code(alphabet, low, high, i)),
    decreases high - low,
{
    let k = split_index(alphabet, low, high);
    if low < high && low <= k < high {
        if i <= k {
            lemma_range_code_bits(alphabet, low, k, i);
        } else {
            lemma_range_code_bits(alphabet, k + 1, high, i);
        }
    }
}

/// The codewords of the Shannon-Fano code are bits, at least one each.
pub proof fn lemma_shannon_fano_code_bits(counts: Seq<u64>)
    requires
        counts.len() == 256,
    ensures
        forall|b: u8|
            shannon_fano_codes(counts).contains_key(b) ==> is_bits(
                #[trigger] shannon_fano_codes(counts)[b],
            ) && shannon_fano_codes(counts)[b].len() >= 1,
{
    let a = ranking(counts);
    lemma_ranking(counts, 256);
    assert forall|b: u8| shannon_fano_codes(counts).contains_key(b) implies is_bits(
        #[trigger] shannon_fano_codes(counts)[b],
    ) && shannon_fano_codes(counts)[b].len() >= 1 by {
        let i = choose|i: int| 0 <= i < a.len() && a[i].0 == b;
        lemma_range_code_bits(a, 0, a.len() - 1, i);
        lemma_split_exists(a, 0, a.len() - 1);
    }
}

} // verus!
