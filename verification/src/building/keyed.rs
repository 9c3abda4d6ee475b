//! Association lists: sequences of key/value pairs read as maps, the later of
//! two pairs with one key winning.
use vstd::prelude::*;

verus! {

/// The map an association list stands for.
pub open spec fn keyed_map<K, V>(s: Seq<(K, V)>) -> Map<K, V>
    decreases s.len(),
{
    if s.len() == 0 {
        Map::empty()
    } else {
        keyed_map(s.drop_last()).insert(s.last().0, s.last().1)
    }
}

/// Whether no key occurs twice in an association list.
pub open spec fn keys_unique<K, V>(s: Seq<(K, V)>) -> bool {
    forall|i: int, j: int| 0 <= i < j < s.len() ==> s[i].0 != s[j].0
}

/// Appending a pair inserts it.
pub proof fn lemma_keyed_map_push<K, V>(s: Seq<(K, V)>, k: K, v: V)
    ensures
        keyed_map(s.push((k, v))) == keyed_map(s).insert(k, v),
{
    assert(s.push((k, v)).drop_last() =~= s);
}

/// The keys of the map are the keys of the list.
pub proof fn lemma_keyed_map_dom<K, V>(s: Seq<(K, V)>)
    ensures
        forall|k: K| #[trigger] keyed_map(s).contains_key(k) <==> exists|i: int| 0 <= i < s.len() && s[i].0 == k,
    decreases s.len(),
{
    if s.len() > 0 {
        lemma_keyed_map_dom(s.drop_last());
        assert forall|k: K| #[trigger] keyed_map(s).contains_key(k) <==> exists|i: int|
            0 <= i < s.len() && s[i].0 == k by {
            if keyed_map(s).contains_key(k) && k != s.last().0 {
                assert(keyed_map(s.drop_last()).contains_key(k));
                let i = choose|i: int| 0 <= i < s.drop_last().len() && s.drop_last()[i].0 == k;
                assert(s[i].0 == k);
            }
            if keyed_map(s).contains_key(k) && k == s.last().0 {
                assert(s[s.len() - 1].0 == k);
            }
            if exists|i: int| 0 <= i < s.len() && s[i].0 == k {
                let i = choose|i: int| 0 <= i < s.len() && s[i].0 == k;
                if i < s.len() - 1 {
                    assert(s.drop_last()[i].0 == k);
                    assert(keyed_map(s.drop_last()).contains_key(k));
                }
                assert(keyed_map(s).contains_key(k));
            }
        }
    }
}

/// With unique keys, each pair's value is its key's value.
pub proof fn lemma_keyed_map_value<K, V>(s: Seq<(K, V)>, i: int)
    requires
        keys_unique(s),
        0 <= i < s.len(),
    ensures
        keyed_map(s).contains_key(s[i].0),
        keyed_map(s)[s[i].0] == s[i].1,
    decreases s.len(),
{
    if i < s.len() - 1 {
        lemma_keyed_map_value(s.drop_last(), i);
    }
}

/// With unique keys, replacing a pair's value updates its key.
pub proof fn lemma_keyed_map_update<K, V>(s: Seq<(K, V)>, i: int, v: V)
    requires
        keys_unique(s),
        0 <= i < s.len(),
    ensures
        keyed_map(s.update(i, (s[i].0, v))) == keyed_map(s).insert(s[i].0, v),
        keys_unique(s.update(i, (s[i].0, v))),
    decreases s.len(),
{
    let t = s.update(i, (s[i].0, v));
    if i == s.len() - 1 {
        assert(t.drop_last() =~= s.drop_last());
        assert(keyed_map(t) =~= keyed_map(s).insert(s[i].0, v));
    } else {
        lemma_keyed_map_update(s.drop_last(), i, v);
        assert(t.drop_last() =~= s.drop_last().update(i, (s[i].0, v)));
        assert(s.last().0 != s[i].0);
        assert(keyed_map(t) =~= keyed_map(s).insert(s[i].0, v));
    }
}

/// The entries of a map that satisfy `keep`.
pub open spec fn restrict<K, V>(m: Map<K, V>, keep: spec_fn(K, V) -> bool) -> Map<K, V> {
    Map::new(|k: K| m.contains_key(k) && keep(k, m[k]), |k: K| m[k])
}

/// Going through an association list with unique keys pair by pair, the
/// entries kept so far grow by the next pair when it is kept.
pub proof fn lemma_restrict_step<K, V>(s: Seq<(K, V)>, i: int, keep: spec_fn(K, V) -> bool)
    requires
        keys_unique(s),
        0 <= i < s.len(),
    ensures
        restrict(keyed_map(s.take(i + 1)), keep) == if keep(s[i].0, s[i].1) {
            restrict(keyed_map(s.take(i)), keep).insert(s[i].0, s[i].1)
        } else {
            restrict(keyed_map(s.take(i)), keep)
        },
        !keyed_map(s.take(i)).contains_key(s[i].0),
{
    assert(s.take(i + 1) =~= s.take(i).push(s[i]));
    lemma_keyed_map_push(s.take(i), s[i].0, s[i].1);
    lemma_keyed_map_dom(s.take(i));
    if keyed_map(s.take(i)).contains_key(s[i].0) {
        let j = choose|j: int| 0 <= j < s.take(i).len() && s.take(i)[j].0 == s[i].0;
        assert(s[j].0 == s[i].0);
    }
    if keep(s[i].0, s[i].1) {
        assert(restrict(keyed_map(s.take(i + 1)), keep) =~= restrict(keyed_map(s.take(i)), keep).insert(
            s[i].0,
            s[i].1,
        ));
    } else {
        assert(restrict(keyed_map(s.take(i + 1)), keep) =~= restrict(keyed_map(s.take(i)), keep));
    }
}

/// The whole list is its longest prefix.
pub proof fn lemma_take_all<K, V>(s: Seq<(K, V)>)
    ensures
        s.take(s.len() as int) == s,
{
    assert(s.take(s.len() as int) =~= s);
}

} // verus!
