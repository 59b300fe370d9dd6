//! The mathematical model of the bucket structure: chains are sequences of
//! key-value entries, searched front to back, and the table's entry count is
//! the sum of the chain lengths.

use vstd::prelude::*;

verus! {

/// The value of the first entry in chain `c` whose key is `k`, if any.
/// Entries behind the first match are shadowed: a search never reaches them.
pub open spec fn first_match<V>(c: Seq<(u64, V)>, k: u64) -> Option<V>
    decreases c.len(),
{
    if c.len() == 0 {
        None
    } else if c[0].0 == k {
        Some(c[0].1)
    } else {
        first_match(c.drop_first(), k)
    }
}

/// The number of entries held across all chains of `bs`.
pub open spec fn count_entries<V>(bs: Seq<Vec<(u64, V)>>) -> nat
    decreases bs.len(),
{
    if bs.len() == 0 {
        0
    } else {
        count_entries(bs.drop_last()) + bs.last()@.len()
    }
}

/// Appending an entry leaves an existing first match in place; it becomes the
/// first match only for its own key, and only where that key had none.
pub proof fn lemma_first_match_push<V>(c: Seq<(u64, V)>, e: (u64, V), k: u64)
    ensures
        first_match(c.push(e), k) == (if first_match(c, k) is Some {
            first_match(c, k)
        } else if e.0 == k {
            Some(e.1)
        } else {
            Option::<V>::None
        }),
    decreases c.len(),
{
    if c.len() == 0 {
        assert(first_match(c, k) is None);
        assert(c.push(e)[0] == e);
        assert(c.push(e).drop_first() =~= Seq::<(u64, V)>::empty());
        assert(first_match(c.push(e).drop_first(), k) is None);
    } else {
        assert(c.push(e)[0] == c[0]);
        assert(c.push(e).drop_first() =~= c.drop_first().push(e));
        lemma_first_match_push(c.drop_first(), e, k);
    }
}

/// A chain whose first entry with key `k` stands at position `p` has that
/// entry's value as its first match.
pub proof fn lemma_first_match_at<V>(c: Seq<(u64, V)>, p: int, k: u64)
    requires
        0 <= p < c.len(),
        c[p].0 == k,
        forall|j: int| 0 <= j < p ==> c[j].0 != k,
    ensures
        first_match(c, k) == Some(c[p].1),
    decreases p,
{
    if p > 0 {
        assert(forall|j: int| 0 <= j < p - 1 ==> c.drop_first()[j].0 == c[j + 1].0);
        lemma_first_match_at(c.drop_first(), p - 1, k);
    }
}

/// A chain in which no entry carries key `k` has no first match for `k`.
pub proof fn lemma_first_match_none<V>(c: Seq<(u64, V)>, k: u64)
    requires
        forall|j: int| 0 <= j < c.len() ==> c[j].0 != k,
    ensures
        first_match(c, k) is None,
    decreases c.len(),
{
    if c.len() > 0 {
        assert(forall|j: int| 0 <= j < c.len() - 1 ==> c.drop_first()[j].0 == c[j + 1].0);
        lemma_first_match_none(c.drop_first(), k);
    }
}

/// Two chains of equal length with the same keys throughout, agreeing on
/// every entry that carries key `k`, have the same first match for `k`.
pub proof fn lemma_first_match_agree<V>(c1: Seq<(u64, V)>, c2: Seq<(u64, V)>, k: u64)
    requires
        c1.len() == c2.len(),
        forall|j: int| 0 <= j < c1.len() ==> c1[j].0 == c2[j].0,
        forall|j: int| 0 <= j < c1.len() && c1[j].0 == k ==> c1[j] == c2[j],
    ensures
        first_match(c1, k) == first_match(c2, k),
    decreases c1.len(),
{
    if c1.len() > 0 {
        if c1[0].0 != k {
            assert(forall|j: int| 0 <= j < c1.len() - 1 ==> c1.drop_first()[j] == c1[j + 1]);
            assert(forall|j: int| 0 <= j < c2.len() - 1 ==> c2.drop_first()[j] == c2[j + 1]);
            lemma_first_match_agree(c1.drop_first(), c2.drop_first(), k);
        }
    }
}

/// Overwriting the value of the first entry with key `k` makes the new value
/// the first match for `k` and disturbs no other key's first match.
pub proof fn lemma_first_match_update<V>(c: Seq<(u64, V)>, p: int, k: u64, w: V)
    requires
        0 <= p < c.len(),
        c[p].0 == k,
        forall|j: int| 0 <= j < p ==> c[j].0 != k,
    ensures
        first_match(c.update(p, (k, w)), k) == Some(w),
        forall|k2: u64|
            k2 != k ==> first_match(c.update(p, (k, w)), k2) == first_match(c, k2),
{
    let u = c.update(p, (k, w));
    lemma_first_match_at(u, p, k);
    assert forall|k2: u64| k2 != k implies first_match(u, k2) == first_match(c, k2) by {
        lemma_first_match_agree(u, c, k2);
    }
}

/// Replacing one chain changes the total entry count by the difference of the
/// chain lengths.
pub proof fn lemma_count_update<V>(bs: Seq<Vec<(u64, V)>>, i: int, c: Vec<(u64, V)>)
    requires
        0 <= i < bs.len(),
    ensures
        count_entries(bs.update(i, c)) + bs[i]@.len() == count_entries(bs) + c@.len(),
    decreases bs.len(),
{
    let u = bs.update(i, c);
    if i == bs.len() - 1 {
        assert(u.drop_last() =~= bs.drop_last());
        assert(u.last() == c);
    } else {
        assert(u.drop_last() =~= bs.drop_last().update(i, c));
        assert(u.last() == bs.last());
        lemma_count_update(bs.drop_last(), i, c);
    }
}

/// As `lemma_count_update`, stated for every replacement chain at once: for
/// use where the new chain's final value cannot yet be named.
pub proof fn lemma_count_update_any<V>(bs: Seq<Vec<(u64, V)>>, i: int)
    requires
        0 <= i < bs.len(),
    ensures
        forall|c: Vec<(u64, V)>|
            count_entries(#[trigger] bs.update(i, c)) + bs[i]@.len() == count_entries(bs)
                + c@.len(),
{
    assert forall|c: Vec<(u64, V)>|
        count_entries(#[trigger] bs.update(i, c)) + bs[i]@.len() == count_entries(bs)
            + c@.len() by {
        lemma_count_update(bs, i, c);
    }
}

/// A bucket structure holding no entries at all has every chain empty.
pub proof fn lemma_count_zero<V>(bs: Seq<Vec<(u64, V)>>)
    requires
        count_entries(bs) == 0,
    ensures
        forall|i: int| 0 <= i < bs.len() ==> (#[trigger] bs[i])@.len() == 0,
    decreases bs.len(),
{
    if bs.len() > 0 {
        lemma_count_zero(bs.drop_last());
        assert(forall|i: int| 0 <= i < bs.len() - 1 ==> bs[i] == bs.drop_last()[i]);
        assert(bs[bs.len() - 1] == bs.last());
    }
}

} // verus!
