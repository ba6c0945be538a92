//! The coders and the error-correcting block codec.

use vstd::prelude::*;
use crate::types::{Probability, Quantity};

pub mod hamming;
pub mod heap;
pub mod huffman;
pub mod shannon_fano;

verus! {

/// The bytes that `counts` counts at least once.
pub open spec fn present(counts: Seq<u64>) -> Set<u8> {
    Set::new(|b: u8| counts[b as int] != 0)
}

/// Each byte value with the number of times it occurs, in the order of the
/// byte values.
pub fn create_quantity_map(alphabet: &[u64; 256]) -> (probs: Vec<Quantity>)
    ensures
        probs.len() == 256,
        forall|i: int|
            0 <= i < 256 ==> (#[trigger] probs[i]) == (Quantity {
                byte: i as u8,
                quantity: alphabet[i] as u128,
            }),
{
    let mut probs: Vec<Quantity> = Vec::new();
    let mut i: usize = 0;
    while i < 256
        invariant
            i <= 256,
            probs.len() == i,
            forall|j: int|
                0 <= j < i ==> (#[trigger] probs[j]) == (Quantity {
                    byte: j as u8,
                    quantity: alphabet[j] as u128,
                }),
        decreases 256 - i,
    {
        probs.push(Quantity { byte: i as u8, quantity: alphabet[i] as u128 });
        i += 1;
    }
    probs
}

/// A symbol ranks before another where it occurs more often.
pub open spec fn insert_ranked(ranked: Seq<Probability>, symbol: Probability) -> Seq<Probability>
    decreases ranked.len(),
{
    if ranked.len() == 0 || ranked[0].1 < symbol.1 {
        seq![symbol] + ranked
    } else {
        seq![ranked[0]] + insert_ranked(ranked.skip(1), symbol)
    }
}

/// The bytes below `i` that occur, each with its count, the most frequent
/// first. Among bytes that occur equally often the lesser byte comes first.
pub open spec fn ranking_upto(counts: Seq<u64>, i: nat) -> Seq<Probability>
    decreases i,
{
    if i == 0 {
        Seq::empty()
    } else {
        let before = ranking_upto(counts, (i - 1) as nat);
        if counts[i - 1] != 0 {
            insert_ranked(before, ((i - 1) as u8, counts[i - 1]))
        } else {
            before
        }
    }
}

/// The bytes that occur, each with its count, the most frequent first.
pub open spec fn ranking(counts: Seq<u64>) -> Seq<Probability> {
    ranking_upto(counts, 256)
}

/// A symbol goes behind the symbols that occur at least as often.
pub proof fn lemma_insert_ranked(ranked: Seq<Probability>, symbol: Probability, at: int)
    requires
        0 <= at <= ranked.len(),
        forall|j: int| 0 <= j < at ==> (#[trigger] ranked[j]).1 >= symbol.1,
        at == ranked.len() || ranked[at].1 < symbol.1,
    ensures
        insert_ranked(ranked, symbol) == ranked.insert(at, symbol),
    decreases at,
{
    if at == 0 {
        assert(seq![symbol] + ranked =~= ranked.insert(0, symbol));
    } else {
        assert(ranked[0].1 >= symbol.1);
        let rest = ranked.skip(1);
        assert forall|j: int| 0 <= j < at - 1 implies (#[trigger] rest[j]).1 >= symbol.1 by {
            assert(rest[j] == ranked[j + 1]);
        }
        lemma_insert_ranked(rest, symbol, at - 1);
        assert(seq![ranked[0]] + rest.insert(at - 1, symbol) =~= ranked.insert(at, symbol));
    }
}

/// The bytes that occur, each with its count, the most frequent first. Among
/// bytes that occur equally often the lesser byte comes first. The counts
/// stand for the probabilities: dividing each by the total changes no
/// comparison between them.
pub fn create_probability_map(alphabet: &[u64; 256]) -> (probabilities: Vec<Probability>)
    ensures
        probabilities@ == ranking(alphabet@),
{
    let mut probabilities: Vec<Probability> = Vec::new();
    let mut byte: usize = 0;
    while byte < 256
        invariant
            byte <= 256,
            probabilities@ == ranking_upto(alphabet@, byte as nat),
        decreases 256 - byte,
    {
        let count = alphabet[byte];
        if count != 0 {
            let mut at: usize = 0;
            while at < probabilities.len() && probabilities[at].1 >= count
                invariant
                    at <= probabilities.len(),
                    forall|j: int| 0 <= j < at ==> (#[trigger] probabilities@[j]).1 >= count,
                decreases probabilities.len() - at,
            {
                at += 1;
            }
            proof {
                lemma_insert_ranked(probabilities@, (byte as u8, count), at as int);
            }
            probabilities.insert(at, (byte as u8, count));
        }
        byte += 1;
    }
    probabilities
}

/// Where a symbol goes among ranked symbols.
pub proof fn lemma_insert_position(ranked: Seq<Probability>, symbol: Probability) -> (at: int)
    ensures
        0 <= at <= ranked.len(),
        insert_ranked(ranked, symbol) == ranked.insert(at, symbol),
        forall|j: int| 0 <= j < at ==> (#[trigger] ranked[j]).1 >= symbol.1,
        at == ranked.len() || ranked[at].1 < symbol.1,
    decreases ranked.len(),
{
    if ranked.len() == 0 || ranked[0].1 < symbol.1 {
        assert(seq![symbol] + ranked =~= ranked.insert(0, symbol));
        0
    } else {
        let rest = ranked.skip(1);
        let at = lemma_insert_position(rest, symbol);
        assert(seq![ranked[0]] + rest.insert(at, symbol) =~= ranked.insert(at + 1, symbol));
        assert forall|j: int| 0 <= j < at + 1 implies (#[trigger] ranked[j]).1 >= symbol.1 by {
            if j > 0 {
                assert(rest[j - 1] == ranked[j]);
            }
        }
        at + 1
    }
}

/// `first` stands before `second` in a ranking: it occurs more often, or as
/// often and is the lesser byte.
pub open spec fn ranks_before(first: Probability, second: Probability) -> bool {
    first.1 > second.1 || (first.1 == second.1 && first.0 < second.0)
}

/// A ranking is in order: each symbol stands before those behind it.
pub proof fn lemma_ranking_sorted(counts: Seq<u64>, i: nat)
    requires
        i <= 256,
        counts.len() == 256,
    ensures
        forall|j: int, k: int|
            0 <= j < k < ranking_upto(counts, i).len() ==> ranks_before(
                #[trigger] ranking_upto(counts, i)[j],
                #[trigger] ranking_upto(counts, i)[k],
            ),
    decreases i,
{
    if i > 0 {
        let before = ranking_upto(counts, (i - 1) as nat);
        let now = ranking_upto(counts, i);
        lemma_ranking_sorted(counts, (i - 1) as nat);
        lemma_ranking(counts, (i - 1) as nat);
        if counts[i - 1] != 0 {
            let symbol = ((i - 1) as u8, counts[i - 1]);
            let at = lemma_insert_position(before, symbol);
            assert forall|j: int, k: int| 0 <= j < k < now.len() implies ranks_before(
                #[trigger] now[j],
                #[trigger] now[k],
            ) by {
                if k < at {
                    assert(ranks_before(before[j], before[k]));
                } else if k == at {
                    assert(before[j].1 >= symbol.1);
                    assert(before[j].0 < i - 1);
                } else if j < at {
                    assert(ranks_before(before[j], before[k - 1]));
                } else if j == at {
                    if at < k - 1 {
                        assert(ranks_before(before[at], before[k - 1]));
                    }
                } else {
                    assert(ranks_before(before[j - 1], before[k - 1]));
                }
            }
        }
    }
}

/// The ranking of the bytes below `i` holds each byte that occurs once, with
/// its count, and nothing else.
pub proof fn lemma_ranking(counts: Seq<u64>, i: nat)
    requires
        i <= 256,
        counts.len() == 256,
    ensures
        ranking_upto(counts, i).len() <= i,
        forall|j: int|
            0 <= j < ranking_upto(counts, i).len() ==> {
                let symbol = (#[trigger] ranking_upto(counts, i)[j]);
                symbol.0 < i && symbol.1 == counts[symbol.0 as int] && symbol.1 > 0
            },
        forall|j: int, k: int|
            0 <= j < ranking_upto(counts, i).len() && 0 <= k < ranking_upto(counts, i).len() && j
                != k ==> (#[trigger] ranking_upto(counts, i)[j]).0 != (#[trigger] ranking_upto(
                counts,
                i,
            )[k]).0,
        forall|b: u8|
            b < i && counts[b as int] != 0 ==> exists|j: int|
                0 <= j < ranking_upto(counts, i).len() && (#[trigger] ranking_upto(counts, i)[j]).0
                    == b,
    decreases i,
{
    if i > 0 {
        let before = ranking_upto(counts, (i - 1) as nat);
        let now = ranking_upto(counts, i);
        lemma_ranking(counts, (i - 1) as nat);
        if counts[i - 1] != 0 {
            let symbol = ((i - 1) as u8, counts[i - 1]);
            let at = lemma_insert_position(before, symbol);
            assert forall|b: u8| b < i && counts[b as int] != 0 implies exists|j: int|
                0 <= j < now.len() && (#[trigger] now[j]).0 == b by {
                if b < i - 1 {
                    let j = choose|j: int| 0 <= j < before.len() && (#[trigger] before[j]).0 == b;
                    if j < at {
                        assert(now[j].0 == b);
                    } else {
                        assert(now[j + 1].0 == b);
                    }
                } else {
                    assert(now[at].0 == b);
                }
            }
        } else {
            assert forall|b: u8| b < i && counts[b as int] != 0 implies exists|j: int|
                0 <= j < now.len() && (#[trigger] now[j]).0 == b by {
                let j = choose|j: int| 0 <= j < before.len() && (#[trigger] before[j]).0 == b;
                assert(now[j].0 == b);
            }
        }
    }
}

} // verus!
