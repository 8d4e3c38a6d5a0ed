//! The two orders of a recording: channels by their display order, channel
//! files by the natural order of their names. Each is computed as a
//! ranking: the positions of the items, in the order in which they are to
//! stand.

use crate::text::texts_of;
use vstd::prelude::*;

verus! {

// ---------------------------------------------------------------------------
// By key
// ---------------------------------------------------------------------------

/// Where the item `item` goes into `ranking`: behind the last item whose key
/// is not greater than its own.
pub open spec fn key_place(keys: Seq<u64>, ranking: Seq<usize>, item: int) -> int
    decreases ranking.len(),
{
    if ranking.len() > 0 && keys[ranking.last() as int] > keys[item] {
        key_place(keys, ranking.drop_last(), item)
    } else {
        ranking.len() as int
    }
}

/// The ranking of the first `n` items by key: each item in turn goes where
/// [`key_place`] says.
pub open spec fn key_ranking(keys: Seq<u64>, n: nat) -> Seq<usize>
    decreases n,
{
    if n == 0 {
        Seq::<usize>::empty()
    } else {
        let before = key_ranking(keys, (n - 1) as nat);
        before.insert(key_place(keys, before, n - 1), (n - 1) as usize)
    }
}

/// Whether `ranking` lists positions of `keys` by rising key, equal keys by
/// rising position.
pub open spec fn ranked_by_key(keys: Seq<u64>, ranking: Seq<usize>) -> bool {
    &&& forall|i: int| 0 <= i < ranking.len() ==> (#[trigger] ranking[i]) < keys.len()
    &&& forall|i: int, j: int|
        0 <= i < j < ranking.len() ==> {
            let a = #[trigger] ranking[i] as int;
            let b = #[trigger] ranking[j] as int;
            keys[a] < keys[b] || (keys[a] == keys[b] && a < b)
        }
}

/// Whether `ranking` holds each of the positions below `n` once and nothing
/// else.
pub open spec fn is_arrangement(ranking: Seq<usize>, n: nat) -> bool {
    &&& ranking.len() == n
    &&& forall|i: int| 0 <= i < ranking.len() ==> (#[trigger] ranking[i]) < n
    &&& forall|p: usize| p < n ==> #[trigger] ranking.contains(p)
}

/// The place of an item lies within the ranking, what stands before it has
/// no greater key, and what stands behind it has a greater key.
pub proof fn lemma_key_place(keys: Seq<u64>, ranking: Seq<usize>, item: int)
    ensures
        0 <= key_place(keys, ranking, item) <= ranking.len(),
        key_place(keys, ranking, item) > 0 ==> keys[ranking[key_place(keys, ranking, item)
            - 1] as int] <= keys[item],
        forall|k: int|
            key_place(keys, ranking, item) <= k < ranking.len() ==> keys[(
            #[trigger] ranking[k]) as int] > keys[item],
    decreases ranking.len(),
{
    if ranking.len() > 0 && keys[ranking.last() as int] > keys[item] {
        lemma_key_place(keys, ranking.drop_last(), item);
        let place = key_place(keys, ranking, item);
        assert forall|k: int| place <= k < ranking.len() implies keys[(
        #[trigger] ranking[k]) as int] > keys[item] by {
            if k < ranking.len() - 1 {
                assert(ranking[k] == ranking.drop_last()[k]);
            }
        }
    }
}

/// The ranking by key is an arrangement of the positions, by rising key and,
/// among equal keys, by rising position: it keeps the first of two equal
/// keys first.
pub proof fn lemma_key_ranking(keys: Seq<u64>, n: nat)
    requires
        n <= keys.len(),
        n <= usize::MAX,
    ensures
        is_arrangement(key_ranking(keys, n), n),
        ranked_by_key(keys, key_ranking(keys, n)),
    decreases n,
{
    if n > 0 {
        let before = key_ranking(keys, (n - 1) as nat);
        lemma_key_ranking(keys, (n - 1) as nat);
        lemma_key_place(keys, before, n - 1);
        let place = key_place(keys, before, n - 1);
        let after = key_ranking(keys, n);
        assert(after == before.insert(place, (n - 1) as usize));
        assert forall|p: usize| p < n implies #[trigger] after.contains(p) by {
            if p == n - 1 {
                assert(after[place] == p);
            } else {
                assert(before.contains(p));
                let i = choose|i: int| 0 <= i < before.len() && before[i] == p;
                if i < place {
                    assert(after[i] == p);
                } else {
                    assert(after[i + 1] == p);
                }
            }
        }
        assert forall|i: int, j: int| 0 <= i < j < after.len() implies {
            let a = #[trigger] after[i] as int;
            let b = #[trigger] after[j] as int;
            keys[a] < keys[b] || (keys[a] == keys[b] && a < b)
        } by {
            let a = after[i] as int;
            let b = after[j] as int;
            if j < place {
                assert(after[i] == before[i] && after[j] == before[j]);
            } else if j == place {
                assert(after[i] == before[i]);
                if i < place - 1 {
                    assert(before[place - 1] == before[place - 1]);
                    let c = before[place - 1] as int;
                    assert(keys[a] < keys[c] || (keys[a] == keys[c] && a < c));
                }
            } else if i == place {
                assert(after[j] == before[j - 1]);
            } else if i < place {
                assert(after[i] == before[i] && after[j] == before[j - 1]);
            } else {
                assert(after[i] == before[i - 1] && after[j] == before[j - 1]);
            }
        }
    }
}

/// Keys that never fall are ranked as they stand.
pub proof fn lemma_rising_keys_keep_place(keys: Seq<u64>, n: nat)
    requires
        n <= keys.len(),
        n <= usize::MAX,
        forall|i: int, j: int| 0 <= i < j < n ==> #[trigger] keys[i] <= #[trigger] keys[j],
    ensures
        key_ranking(keys, n) == Seq::new(n, |i: int| i as usize),
    decreases n,
{
    if n > 0 {
        lemma_rising_keys_keep_place(keys, (n - 1) as nat);
        let before = key_ranking(keys, (n - 1) as nat);
        assert(before == Seq::new((n - 1) as nat, |i: int| i as usize));
        if n > 1 {
            assert(before.last() == (n - 2) as usize);
            assert(keys[n - 2] <= keys[n - 1]);
        }
        assert(key_place(keys, before, n - 1) == n - 1);
        assert(before.insert(n - 1, (n - 1) as usize) =~= Seq::new(n, |i: int| i as usize));
    } else {
        assert(key_ranking(keys, n) =~= Seq::new(n, |i: int| i as usize));
    }
}

/// The positions of `keys` by rising key, equal keys in the order in which
/// they stand.
pub fn rank_by_key(keys: &Vec<u64>) -> (ranking: Vec<usize>)
    ensures
        ranking@ == key_ranking(keys@, keys@.len()),
        is_arrangement(ranking@, keys@.len()),
        ranked_by_key(keys@, ranking@),
{
    let mut ranking: Vec<usize> = Vec::new();
    let mut item: usize = 0;
    while item < keys.len()
        invariant
            item <= keys.len(),
            ranking@ == key_ranking(keys@, item as nat),
            is_arrangement(ranking@, item as nat),
        decreases keys.len() - item,
    {
        let mut place: usize = ranking.len();
        assert(ranking@.take(place as int) == ranking@);
        while place > 0 && keys[ranking[place - 1]] > keys[item]
            invariant
                place <= ranking.len(),
                item < keys.len(),
                is_arrangement(ranking@, item as nat),
                key_place(keys@, ranking@, item as int) == key_place(
                    keys@,
                    ranking@.take(place as int),
                    item as int,
                ),
            decreases place,
        {
            assert(ranking@.take(place as int).drop_last() == ranking@.take(place as int - 1));
            place -= 1;
        }
        ranking.insert(place, item);
        item += 1;
        proof {
            lemma_key_ranking(keys@, item as nat);
        }
    }
    proof {
        lemma_key_ranking(keys@, keys@.len());
    }
    ranking
}

// ---------------------------------------------------------------------------
// By natural order of names
// ---------------------------------------------------------------------------

/// How `natord::compare` orders two texts: negative where `left` comes
/// first, zero where neither does, positive where `right` comes first.
pub uninterp spec fn natural_order(left: Seq<char>, right: Seq<char>) -> int;

/// Compares two texts in natural order, in which a run of digits counts as
/// the number it writes.
///
/// Trusted: calls `natord::compare` and gives its result as -1, 0 or 1. The
/// library knows the comparison only by the name [`natural_order`].
#[verifier::external_body]
fn natural_compare(left: &str, right: &str) -> (r: i8)
    ensures
        r == natural_order(left@, right@),
        -1 <= r <= 1,
{
    match natord::compare(left, right) {
        std::cmp::Ordering::Less => -1,
        std::cmp::Ordering::Equal => 0,
        std::cmp::Ordering::Greater => 1,
    }
}

/// Where the item `item` goes into `ranking`: behind the last item whose
/// name does not come after its own.
pub open spec fn name_place(names: Seq<Seq<char>>, ranking: Seq<usize>, item: int) -> int
    decreases ranking.len(),
{
    if ranking.len() > 0 && natural_order(names[ranking.last() as int], names[item]) > 0 {
        name_place(names, ranking.drop_last(), item)
    } else {
        ranking.len() as int
    }
}

/// The ranking of the first `n` names in natural order: each name in turn
/// goes where [`name_place`] says.
pub open spec fn name_ranking(names: Seq<Seq<char>>, n: nat) -> Seq<usize>
    decreases n,
{
    if n == 0 {
        Seq::<usize>::empty()
    } else {
        let before = name_ranking(names, (n - 1) as nat);
        before.insert(name_place(names, before, n - 1), (n - 1) as usize)
    }
}

/// The place of a name lies within the ranking.
pub proof fn lemma_name_place(names: Seq<Seq<char>>, ranking: Seq<usize>, item: int)
    ensures
        0 <= name_place(names, ranking, item) <= ranking.len(),
    decreases ranking.len(),
{
    if ranking.len() > 0 && natural_order(names[ranking.last() as int], names[item]) > 0 {
        lemma_name_place(names, ranking.drop_last(), item);
    }
}

/// The ranking of names is an arrangement of the positions, whatever the
/// comparison makes of the names.
pub proof fn lemma_name_ranking(names: Seq<Seq<char>>, n: nat)
    requires
        n <= usize::MAX,
    ensures
        is_arrangement(name_ranking(names, n), n),
    decreases n,
{
    if n > 0 {
        let before = name_ranking(names, (n - 1) as nat);
        lemma_name_ranking(names, (n - 1) as nat);
        lemma_name_place(names, before, n - 1);
        let place = name_place(names, before, n - 1);
        let after = name_ranking(names, n);
        assert(after == before.insert(place, (n - 1) as usize));
        assert forall|p: usize| p < n implies #[trigger] after.contains(p) by {
            if p == n - 1 {
                assert(after[place] == p);
            } else {
                assert(before.contains(p));
                let i = choose|i: int| 0 <= i < before.len() && before[i] == p;
                if i < place {
                    assert(after[i] == p);
                } else {
                    assert(after[i + 1] == p);
                }
            }
        }
    }
}

/// The positions of `names` in natural order, names that compare equal in
/// the order in which they stand.
pub fn rank_by_name(names: &Vec<String>) -> (ranking: Vec<usize>)
    ensures
        ranking@ == name_ranking(texts_of(names@), names@.len()),
        is_arrangement(ranking@, names@.len()),
{
    let ghost texts = texts_of(names@);
    let mut ranking: Vec<usize> = Vec::new();
    let mut item: usize = 0;
    while item < names.len()
        invariant
            item <= names.len(),
            texts == texts_of(names@),
            ranking@ == name_ranking(texts, item as nat),
            is_arrangement(ranking@, item as nat),
        decreases names.len() - item,
    {
        let mut place: usize = ranking.len();
        assert(ranking@.take(place as int) == ranking@);
        while place > 0 && natural_compare(
            names[ranking[place - 1]].as_str(),
            names[item].as_str(),
        ) > 0
            invariant
                place <= ranking.len(),
                item < names.len(),
                texts == texts_of(names@),
                is_arrangement(ranking@, item as nat),
                name_place(texts, ranking@, item as int) == name_place(
                    texts,
                    ranking@.take(place as int),
                    item as int,
                ),
            decreases place,
        {
            assert(ranking@.take(place as int).drop_last() == ranking@.take(place as int - 1));
            place -= 1;
        }
        ranking.insert(place, item);
        item += 1;
        proof {
            lemma_name_ranking(texts, item as nat);
        }
    }
    ranking
}

} // verus!
