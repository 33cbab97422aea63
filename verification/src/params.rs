//! Route parameters: a key/value list with unique keys, read as a map.

use vstd::prelude::*;

verus! {

/// The views of a sequence of string pairs.
pub open spec fn pair_views(v: Seq<(String, String)>) -> Seq<(Seq<char>, Seq<char>)> {
    v.map_values(|p: (String, String)| (p.0@, p.1@))
}

/// The map obtained by inserting the pairs of `kv` in order into an empty
/// map; a later pair overwrites an earlier one with the same key.
pub open spec fn kv_map(kv: Seq<(Seq<char>, Seq<char>)>) -> Map<Seq<char>, Seq<char>>
    decreases kv.len(),
{
    if kv.len() == 0 {
        Map::empty()
    } else {
        kv_map(kv.drop_last()).insert(kv.last().0, kv.last().1)
    }
}

/// No key occurs twice in `kv`.
pub open spec fn keys_unique(kv: Seq<(Seq<char>, Seq<char>)>) -> bool {
    forall|i: int, j: int| 0 <= i < j < kv.len() ==> kv[i].0 != kv[j].0
}

/// Overwriting the value of a key that occurs once is inserting into the map.
proof fn lemma_kv_map_update(kv: Seq<(Seq<char>, Seq<char>)>, i: int, v: Seq<char>)
    requires
        keys_unique(kv),
        0 <= i < kv.len(),
    ensures
        kv_map(kv.update(i, (kv[i].0, v))) =~= kv_map(kv).insert(kv[i].0, v),
    decreases kv.len(),
{
    let k = kv[i].0;
    let kv2 = kv.update(i, (k, v));
    if i == kv.len() - 1 {
        assert(kv2.drop_last() =~= kv.drop_last());
    } else {
        assert(kv2.drop_last() =~= kv.drop_last().update(i, (k, v)));
        lemma_kv_map_update(kv.drop_last(), i, v);
        assert(kv.last().0 != k);
    }
}

/// A key absent from `kv` is absent from its map.
proof fn lemma_kv_map_absent(kv: Seq<(Seq<char>, Seq<char>)>, k: Seq<char>)
    requires
        forall|j: int| 0 <= j < kv.len() ==> kv[j].0 != k,
    ensures
        !kv_map(kv).contains_key(k),
    decreases kv.len(),
{
    if kv.len() > 0 {
        lemma_kv_map_absent(kv.drop_last(), k);
    }
}

/// The map of a list with unique keys sends each key to the value beside it.
proof fn lemma_kv_map_lookup(kv: Seq<(Seq<char>, Seq<char>)>, i: int)
    requires
        keys_unique(kv),
        0 <= i < kv.len(),
    ensures
        kv_map(kv).contains_key(kv[i].0),
        kv_map(kv)[kv[i].0] == kv[i].1,
    decreases kv.len(),
{
    if i < kv.len() - 1 {
        lemma_kv_map_lookup(kv.drop_last(), i);
    }
}

/// A parameter list with unique keys reads as its map: a key in the list
/// maps to the value beside it, and a key not in the list is absent.
pub proof fn law_param_list_reads_as_map(kv: Seq<(Seq<char>, Seq<char>)>, k: Seq<char>)
    requires
        keys_unique(kv),
    ensures
        forall|i: int|
            0 <= i < kv.len() && #[trigger] kv[i].0 == k ==> kv_map(kv).contains_key(k)
                && kv_map(kv)[k] == kv[i].1,
        (forall|i: int| 0 <= i < kv.len() ==> kv[i].0 != k) ==> !kv_map(kv).contains_key(k),
{
    assert forall|i: int| 0 <= i < kv.len() && #[trigger] kv[i].0 == k implies kv_map(
        kv,
    ).contains_key(k) && kv_map(kv)[k] == kv[i].1 by {
        lemma_kv_map_lookup(kv, i);
    }
    if forall|i: int| 0 <= i < kv.len() ==> kv[i].0 != k {
        lemma_kv_map_absent(kv, k);
    }
}

/// Inserts `(k, v)` into the list read as a map: overwrites the value of `k`
/// where it occurs, appends the pair otherwise.
fn assoc_insert(m: &mut Vec<(String, String)>, k: String, v: String)
    requires
        keys_unique(pair_views(old(m)@)),
    ensures
        keys_unique(pair_views(final(m)@)),
        kv_map(pair_views(final(m)@)) == kv_map(pair_views(old(m)@)).insert(k@, v@),
{
    let ghost s = pair_views(m@);
    let mut i: usize = 0;
    while i < m.len()
        invariant
            i <= m.len(),
            s == pair_views(m@),
            m@ == old(m)@,
            keys_unique(s),
            forall|j: int| 0 <= j < i ==> s[j].0 != k@,
        decreases m.len() - i,
    {
        if m[i].0 == k {
            assert(s[i as int].0 == k@);
            proof {
                lemma_kv_map_update(s, i as int, v@);
            }
            m.set(i, (k, v));
            let ghost s2 = s.update(i as int, (s[i as int].0, v@));
            assert(pair_views(m@) =~= s2);
            assert forall|a: int, b: int| 0 <= a < b < s2.len() implies s2[a].0 != s2[b].0 by {
                assert(s2[a].0 == s[a].0 && s2[b].0 == s[b].0);
            }
            return;
        }
        i += 1;
    }
    m.push((k, v));
    let ghost s2 = pair_views(m@);
    assert(s2.drop_last() =~= s);
    assert forall|a: int, b: int| 0 <= a < b < s2.len() implies s2[a].0 != s2[b].0 by {
        assert(s2[a] == s[a]);
        if b < s.len() {
            assert(s2[b] == s[b]);
        }
    }
}

/// The pairs of `kv` collected with map semantics: unique keys, the last
/// value of each key kept.
pub fn collect_params(kv: &Vec<(String, String)>) -> (m: Vec<(String, String)>)
    ensures
        keys_unique(pair_views(m@)),
        kv_map(pair_views(m@)) == kv_map(pair_views(kv@)),
{
    let mut m: Vec<(String, String)> = Vec::new();
    let mut i: usize = 0;
    while i < kv.len()
        invariant
            i <= kv.len(),
            keys_unique(pair_views(m@)),
            kv_map(pair_views(m@)) == kv_map(pair_views(kv@.take(i as int))),
        decreases kv.len() - i,
    {
        let (k, v) = (kv[i].0.clone(), kv[i].1.clone());
        assoc_insert(&mut m, k, v);
        assert(pair_views(kv@.take(i + 1)).drop_last() =~= pair_views(kv@.take(i as int)));
        i += 1;
    }
    assert(kv@.take(i as int) =~= kv@);
    m
}

} // verus!
