//! The list of candidate pools: which of the pools that a venue lists are taken, and what
//! is kept of each.

use crate::address::Address;
use crate::ledger::{base58_address, parse_base58};
use crate::pool::PoolType;
use vstd::prelude::*;
use vstd::string::StringExecFns;

verus! {

/// A candidate pool: its name for people, its identity, its venue and its two tokens.
#[derive(Debug)]
pub struct PairData {
    pub pair_name: String,
    pub pool_id: Address,
    pub pool_type: PoolType,
    pub token_mint_a: Address,
    pub token_mint_b: Address,
}

/// How the day's trade volume of a listed pool stands to the volume threshold.
#[derive(Debug, Clone, Copy, PartialEq, Eq, Structural)]
pub enum VolumeMark {
    /// The venue gives no volume for the pool.
    Missing,
    /// The volume is at or above the threshold.
    Enough,
    /// The volume is below the threshold.
    TooLow,
}

/// A pool as a venue lists it: addresses in base 58, and the volume mark.
#[derive(Debug)]
pub struct ListedPool {
    pub address: String,
    pub name: String,
    pub mint_a: String,
    pub mint_b: String,
    pub volume: VolumeMark,
}

/// Why a listing could not be turned into candidates.
#[derive(Debug, Clone, Copy, PartialEq, Eq, Structural)]
pub enum PairError {
    /// The listed pool at `index` has an address that is no address in base 58.
    BadAddress { index: usize },
}

/// Whether `indices` go strictly upward.
pub open spec fn ascending(indices: Seq<usize>) -> bool {
    forall|m: int, n: int| 0 <= m < n < indices.len() ==> indices[m] < indices[n]
}

/// Whether the listed pool at `i` is taken by volume. Venues list their pools by falling
/// volume: the pools with enough volume are taken up to the first whose volume is too low,
/// and pools without a volume are passed over.
pub open spec fn taken_by_volume(listed: Seq<ListedPool>, i: int) -> bool {
    &&& 0 <= i < listed.len()
    &&& listed[i].volume is Enough
    &&& forall|j: int| 0 <= j < i ==> !((#[trigger] listed[j]).volume is TooLow)
}

/// Whether `mint` is among `known`.
pub open spec fn is_known(known: Seq<String>, mint: Seq<char>) -> bool {
    exists|k: int| 0 <= k < known.len() && (#[trigger] known[k])@ == mint
}

/// Whether both tokens of the listed pool at `i` are known.
pub open spec fn trades_known(listed: Seq<ListedPool>, known: Seq<String>, i: int) -> bool {
    is_known(known, listed[i].mint_a@) && is_known(known, listed[i].mint_b@)
}

/// Whether the listed pool at `i` is taken for its tokens: both are known, and no pool
/// listed before it with known tokens has the same address.
pub open spec fn taken_as_known(listed: Seq<ListedPool>, known: Seq<String>, i: int) -> bool {
    &&& 0 <= i < listed.len()
    &&& trades_known(listed, known, i)
    &&& forall|j: int|
        0 <= j < i && trades_known(listed, known, j) ==> (#[trigger] listed[j]).address@
            != listed[i].address@
}

/// Whether `pair` is what the listed pool comes to as a candidate of the venue `pool_type`.
pub open spec fn is_pair_of(listed: ListedPool, pool_type: PoolType, pair: PairData) -> bool {
    &&& pair.pair_name@ == listed.name@
    &&& pair.pool_type == pool_type
    &&& base58_address(listed.address@) == Some(pair.pool_id@)
    &&& base58_address(listed.mint_a@) == Some(pair.token_mint_a@)
    &&& base58_address(listed.mint_b@) == Some(pair.token_mint_b@)
}

/// Whether the three addresses of the listed pool are addresses in base 58.
pub open spec fn has_addresses(listed: ListedPool) -> bool {
    &&& base58_address(listed.address@) is Some
    &&& base58_address(listed.mint_a@) is Some
    &&& base58_address(listed.mint_b@) is Some
}

/// Whether `text` is among `texts`.
fn contains_text(texts: &Vec<String>, text: &String) -> (held: bool)
    ensures
        held == is_known(texts@, text@),
{
    let mut k: usize = 0;
    while k < texts.len()
        invariant
            k <= texts.len(),
            forall|j: int| 0 <= j < k ==> (#[trigger] texts@[j])@ != text@,
        decreases texts.len() - k,
    {
        if texts[k] == *text {
            return true;
        }
        k += 1;
    }
    false
}

/// The name of a pair of tokens: the two symbols with a dash between them.
pub fn pair_name(symbol_a: &str, symbol_b: &str) -> (name: String)
    ensures
        name@ == symbol_a@ + seq!['-'] + symbol_b@,
{
    proof {
        reveal_strlit("-");
        assert("-"@ =~= seq!['-']);
    }
    String::from_str(symbol_a).concat("-").concat(symbol_b)
}

/// The places of the listed pools that are taken by volume, in the order of the listing.
pub fn choose_by_volume(listed: &Vec<ListedPool>) -> (chosen: Vec<usize>)
    ensures
        ascending(chosen@),
        forall|i: int| chosen@.contains(i as usize) && 0 <= i <= usize::MAX <==> taken_by_volume(
            listed@,
            i,
        ),
{
    let mut chosen: Vec<usize> = Vec::new();
    let mut n: usize = 0;
    while n < listed.len()
        invariant
            n <= listed.len(),
            ascending(chosen@),
            forall|m: int| 0 <= m < chosen@.len() ==> chosen@[m] < n,
            forall|j: int| 0 <= j < n ==> !((#[trigger] listed@[j]).volume is TooLow),
            forall|i: int|
                0 <= i < n ==> (chosen@.contains(i as usize) <==> taken_by_volume(listed@, i)),
        decreases listed.len() - n,
    {
        match listed[n].volume {
            VolumeMark::TooLow => {
                proof {
                    assert forall|i: int|
                        chosen@.contains(i as usize) && 0 <= i <= usize::MAX
                            <==> taken_by_volume(listed@, i) by {
                        if taken_by_volume(listed@, i) && i >= n {
                            assert(listed@[n as int].volume is TooLow);
                        }
                    }
                }
                return chosen;
            },
            VolumeMark::Missing => {},
            VolumeMark::Enough => {
                let ghost before = chosen@;
                chosen.push(n);
                proof {
                    assert(chosen@[before.len() as int] == n);
                    assert forall|i: int| 0 <= i < n + 1 implies (chosen@.contains(i as usize)
                        <==> taken_by_volume(listed@, i)) by {
                        if i < n {
                            if before.contains(i as usize) {
                                let m = choose|m: int| 0 <= m < before.len() && before[m] == i;
                                assert(chosen@[m] == i);
                            }
                        }
                    }
                }
            },
        }
        n += 1;
    }
    chosen
}

/// The places of the listed pools that are taken for their tokens, in the order of the
/// listing.
pub fn choose_known(listed: &Vec<ListedPool>, known_mints: &Vec<String>) -> (chosen: Vec<usize>)
    ensures
        ascending(chosen@),
        forall|i: int| chosen@.contains(i as usize) && 0 <= i <= usize::MAX <==> taken_as_known(
            listed@,
            known_mints@,
            i,
        ),
{
    let mut chosen: Vec<usize> = Vec::new();
    let mut n: usize = 0;
    while n < listed.len()
        invariant
            n <= listed.len(),
            ascending(chosen@),
            forall|m: int| 0 <= m < chosen@.len() ==> chosen@[m] < n,
            forall|i: int|
                0 <= i < n ==> (chosen@.contains(i as usize) <==> taken_as_known(
                    listed@,
                    known_mints@,
                    i,
                )),
        decreases listed.len() - n,
    {
        let known = contains_text(known_mints, &listed[n].mint_a) && contains_text(
            known_mints,
            &listed[n].mint_b,
        );
        if known {
            // The address is new if no pool taken so far has it: a pool with known tokens
            // that was not taken has the address of one that was.
            let mut fresh = true;
            let mut m: usize = 0;
            while m < chosen.len()
                invariant
                    m <= chosen@.len(),
                    n < listed@.len(),
                    forall|k: int| 0 <= k < chosen@.len() ==> chosen@[k] < n,
                    fresh <==> forall|k: int|
                        0 <= k < m ==> listed@[(#[trigger] chosen@[k]) as int].address@
                            != listed@[n as int].address@,
                decreases chosen.len() - m,
            {
                if listed[chosen[m]].address == listed[n].address {
                    fresh = false;
                }
                m += 1;
            }
            proof {
                lemma_first_of_address(listed@, known_mints@, chosen@, n as int, fresh);
            }
            if fresh {
                let ghost before = chosen@;
                chosen.push(n);
                proof {
                    assert(chosen@[before.len() as int] == n);
                    assert forall|i: int| 0 <= i < n + 1 implies (chosen@.contains(i as usize)
                        <==> taken_as_known(listed@, known_mints@, i)) by {
                        if i < n {
                            if before.contains(i as usize) {
                                let m = choose|m: int| 0 <= m < before.len() && before[m] == i;
                                assert(chosen@[m] == i);
                            }
                        }
                    }
                }
            }
        }
        n += 1;
    }
    chosen
}

/// Among the pools with known tokens, the address of the pool at `n` is new exactly when
/// none of the pools taken before it has that address.
proof fn lemma_first_of_address(
    listed: Seq<ListedPool>,
    known: Seq<String>,
    chosen: Seq<usize>,
    n: int,
    fresh: bool,
)
    requires
        0 <= n < listed.len() <= usize::MAX,
        trades_known(listed, known, n),
        forall|k: int| 0 <= k < chosen.len() ==> chosen[k] < n,
        forall|i: int|
            0 <= i < n ==> (chosen.contains(i as usize) <==> taken_as_known(listed, known, i)),
        fresh <==> forall|k: int|
            0 <= k < chosen.len() ==> listed[(#[trigger] chosen[k]) as int].address@
                != listed[n].address@,
    ensures
        fresh <==> taken_as_known(listed, known, n),
{
    if fresh {
        assert forall|j: int| 0 <= j < n && trades_known(listed, known, j) implies (
        #[trigger] listed[j]).address@ != listed[n].address@ by {
            if listed[j].address@ == listed[n].address@ {
                let first = lemma_first_with_address(listed, known, j);
                assert(taken_as_known(listed, known, first));
                assert(chosen.contains(first as usize));
                let k = choose|k: int| 0 <= k < chosen.len() && chosen[k] == first as usize;
                assert(listed[chosen[k] as int].address@ != listed[n].address@);
            }
        }
    } else {
        let k = choose|k: int|
            0 <= k < chosen.len() && listed[(#[trigger] chosen[k]) as int].address@
                == listed[n].address@;
        assert(chosen.contains(chosen[k]));
        assert(taken_as_known(listed, known, chosen[k] as int));
    }
}

/// The first pool with known tokens that has the address of the pool at `j`, which has
/// known tokens itself.
proof fn lemma_first_with_address(listed: Seq<ListedPool>, known: Seq<String>, j: int) -> (first:
    int)
    requires
        0 <= j < listed.len(),
        trades_known(listed, known, j),
    ensures
        0 <= first <= j,
        listed[first].address@ == listed[j].address@,
        taken_as_known(listed, known, first),
    decreases j,
{
    if taken_as_known(listed, known, j) {
        j
    } else {
        let earlier = choose|e: int|
            0 <= e < j && trades_known(listed, known, e) && (#[trigger] listed[e]).address@
                == listed[j].address@;
        lemma_first_with_address(listed, known, earlier)
    }
}

/// What the listed pool comes to as a candidate of the venue `pool_type`; nothing where
/// one of its addresses is no address in base 58.
pub fn to_pair_data(listed: &ListedPool, pool_type: PoolType) -> (pair: Option<PairData>)
    ensures
        match pair {
            Some(pair) => is_pair_of(*listed, pool_type, pair),
            None => !has_addresses(*listed),
        },
{
    let pool_id = match parse_base58(listed.address.as_str()) {
        Some(address) => address,
        None => {
            return None;
        },
    };
    let token_mint_a = match parse_base58(listed.mint_a.as_str()) {
        Some(address) => address,
        None => {
            return None;
        },
    };
    let token_mint_b = match parse_base58(listed.mint_b.as_str()) {
        Some(address) => address,
        None => {
            return None;
        },
    };
    Some(
        PairData {
            pair_name: listed.name.clone(),
            pool_id,
            pool_type,
            token_mint_a,
            token_mint_b,
        },
    )
}

/// The candidates that the listed pools at the places `chosen` come to, in that order; or
/// the first of those places where a pool has an address that is no address in base 58.
pub fn pairs_at(listed: &Vec<ListedPool>, chosen: &Vec<usize>, pool_type: PoolType) -> (result:
    Result<Vec<PairData>, PairError>)
    requires
        forall|k: int| 0 <= k < chosen@.len() ==> chosen@[k] < listed@.len(),
    ensures
        match result {
            Ok(pairs) => {
                &&& pairs@.len() == chosen@.len()
                &&& forall|k: int|
                    0 <= k < chosen@.len() ==> is_pair_of(
                        listed@[chosen@[k] as int],
                        pool_type,
                        #[trigger] pairs@[k],
                    )
            },
            Err(PairError::BadAddress { index }) => exists|k: int|
                {
                    &&& 0 <= k < chosen@.len()
                    &&& #[trigger] chosen@[k] == index
                    &&& !has_addresses(listed@[index as int])
                    &&& forall|e: int|
                        0 <= e < k ==> has_addresses(listed@[(#[trigger] chosen@[e]) as int])
                },
        },
{
    let mut pairs: Vec<PairData> = Vec::new();
    let mut k: usize = 0;
    while k < chosen.len()
        invariant
            k <= chosen@.len(),
            pairs@.len() == k,
            forall|e: int| 0 <= e < chosen@.len() ==> chosen@[e] < listed@.len(),
            forall|e: int|
                0 <= e < k ==> is_pair_of(
                    listed@[chosen@[e] as int],
                    pool_type,
                    #[trigger] pairs@[e],
                ),
        decreases chosen.len() - k,
    {
        let index = chosen[k];
        match to_pair_data(&listed[index], pool_type) {
            Some(pair) => {
                pairs.push(pair);
            },
            None => {
                proof {
                    assert forall|e: int| 0 <= e < k implies has_addresses(
                        listed@[(#[trigger] chosen@[e]) as int],
                    ) by {
                        assert(is_pair_of(listed@[chosen@[e] as int], pool_type, pairs@[e]));
                    }
                }
                return Err(PairError::BadAddress { index });
            },
        }
        k += 1;
    }
    Ok(pairs)
}

/// `texts` with `text` behind them, unless it is among them already.
pub open spec fn with_text(texts: Seq<Seq<char>>, text: Seq<char>) -> Seq<Seq<char>> {
    if texts.contains(text) {
        texts
    } else {
        texts.push(text)
    }
}

/// The tokens of the first `upto` of the listed pools at the places `chosen`, each once, in
/// the order in which the pools name them first.
pub open spec fn mints_upto(listed: Seq<ListedPool>, chosen: Seq<usize>, upto: int) -> Seq<
    Seq<char>,
>
    decreases upto,
{
    if upto <= 0 {
        Seq::empty()
    } else {
        let pool = listed[chosen[upto - 1] as int];
        with_text(with_text(mints_upto(listed, chosen, upto - 1), pool.mint_a@), pool.mint_b@)
    }
}

/// Puts `text` behind `texts`, unless it is among them already.
fn add_text(texts: &mut Vec<String>, text: &String)
    ensures
        final(texts).deep_view() == with_text(old(texts).deep_view(), text@),
{
    let mut k: usize = 0;
    while k < texts.len()
        invariant
            k <= texts.len(),
            *texts == *old(texts),
            forall|j: int| 0 <= j < k ==> (#[trigger] texts@[j])@ != text@,
        decreases texts.len() - k,
    {
        if texts[k] == *text {
            assert(texts.deep_view()[k as int] == text@);
            return ;
        }
        k += 1;
    }
    assert(!texts.deep_view().contains(text@)) by {
        if texts.deep_view().contains(text@) {
            let w = choose|w: int|
                0 <= w < texts.deep_view().len() && texts.deep_view()[w] == text@;
            assert(texts@[w]@ == text@);
        }
    }
    texts.push(text.clone());
    assert(texts.deep_view() =~= old(texts).deep_view().push(text@));
}

/// The texts of `texts`, each once, in the order in which they come first.
pub open spec fn each_once(texts: Seq<Seq<char>>) -> Seq<Seq<char>>
    decreases texts.len(),
{
    if texts.len() == 0 {
        Seq::empty()
    } else {
        with_text(each_once(texts.drop_last()), texts.last())
    }
}

/// The tokens of two lists as one list that names each token once, in the order in which
/// it comes first.
pub fn merge_mints(first: &Vec<String>, second: &Vec<String>) -> (merged: Vec<String>)
    ensures
        merged.deep_view() == each_once(first.deep_view() + second.deep_view()),
{
    let ghost all = first.deep_view() + second.deep_view();
    let mut merged: Vec<String> = Vec::new();
    assert(merged.deep_view() =~= Seq::<Seq<char>>::empty());
    assert(all.take(0) =~= Seq::<Seq<char>>::empty());
    let mut i: usize = 0;
    while i < first.len()
        invariant
            i <= first.len(),
            all == first.deep_view() + second.deep_view(),
            merged.deep_view() == each_once(all.take(i as int)),
        decreases first.len() - i,
    {
        add_text(&mut merged, &first[i]);
        proof {
            assert(all.take(i + 1).drop_last() =~= all.take(i as int));
            assert(all.take(i + 1).last() == first[i as int]@);
        }
        i += 1;
    }
    let mut j: usize = 0;
    while j < second.len()
        invariant
            j <= second.len(),
            all == first.deep_view() + second.deep_view(),
            merged.deep_view() == each_once(all.take(first.len() + j)),
        decreases second.len() - j,
    {
        add_text(&mut merged, &second[j]);
        proof {
            let n = first.len() + j;
            assert(all.take(n + 1).drop_last() =~= all.take(n as int));
            assert(all.take(n + 1).last() == second[j as int]@);
        }
        j += 1;
    }
    proof {
        assert(all.take(first.len() + second.len()) =~= all);
    }
    merged
}

/// The tokens of the listed pools at the places `chosen`, each once, in the order in which
/// the pools name them first.
pub fn mints_at(listed: &Vec<ListedPool>, chosen: &Vec<usize>) -> (mints: Vec<String>)
    requires
        forall|k: int| 0 <= k < chosen@.len() ==> chosen@[k] < listed@.len(),
    ensures
        mints.deep_view() == mints_upto(listed@, chosen@, chosen@.len() as int),
{
    let mut mints: Vec<String> = Vec::new();
    let mut k: usize = 0;
    assert(mints.deep_view() =~= Seq::<Seq<char>>::empty());
    while k < chosen.len()
        invariant
            k <= chosen@.len(),
            forall|e: int| 0 <= e < chosen@.len() ==> chosen@[e] < listed@.len(),
            mints.deep_view() == mints_upto(listed@, chosen@, k as int),
        decreases chosen.len() - k,
    {
        let pool = &listed[chosen[k]];
        add_text(&mut mints, &pool.mint_a);
        add_text(&mut mints, &pool.mint_b);
        k += 1;
    }
    mints
}

} // verus!
