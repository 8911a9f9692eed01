use vstd::prelude::*;

verus! {

/// The map that a list of (key, value) pairs describes; a later pair wins over an
/// earlier one with the same key.
pub open spec fn to_map<V>(ps: Seq<(Seq<char>, V)>) -> Map<Seq<char>, V>
    decreases ps.len(),
{
    if ps.len() == 0 {
        Map::empty()
    } else {
        to_map(ps.drop_last()).insert(ps.last().0, ps.last().1)
    }
}

/// No key occurs twice in `ps`.
pub open spec fn unique_keys<V>(ps: Seq<(Seq<char>, V)>) -> bool {
    forall|i: int, j: int| 0 <= i < j < ps.len() ==> ps[i].0 != ps[j].0
}

pub proof fn lemma_to_map_dom<V>(ps: Seq<(Seq<char>, V)>, k: Seq<char>)
    ensures
        to_map(ps).contains_key(k) <==> exists|i: int| 0 <= i < ps.len() && ps[i].0 == k,
    decreases ps.len(),
{
    if ps.len() > 0 {
        lemma_to_map_dom(ps.drop_last(), k);
        if to_map(ps).contains_key(k) && k != ps.last().0 {
            let i = choose|i: int| 0 <= i < ps.drop_last().len() && ps.drop_last()[i].0 == k;
            assert(ps[i].0 == k);
        }
        if exists|i: int| 0 <= i < ps.len() && ps[i].0 == k {
            let i = choose|i: int| 0 <= i < ps.len() && ps[i].0 == k;
            if i < ps.len() - 1 {
                assert(ps.drop_last()[i].0 == k);
            }
        }
    }
}

pub proof fn lemma_to_map_get<V>(ps: Seq<(Seq<char>, V)>, i: int)
    requires
        unique_keys(ps),
        0 <= i < ps.len(),
    ensures
        to_map(ps).contains_key(ps[i].0),
        to_map(ps)[ps[i].0] == ps[i].1,
    decreases ps.len(),
{
    if i < ps.len() - 1 {
        assert(ps.drop_last()[i] == ps[i]);
        lemma_to_map_get(ps.drop_last(), i);
    }
}

pub proof fn lemma_to_map_update<V>(ps: Seq<(Seq<char>, V)>, i: int, v: V)
    requires
        unique_keys(ps),
        0 <= i < ps.len(),
    ensures
        to_map(ps.update(i, (ps[i].0, v))) == to_map(ps).insert(ps[i].0, v),
    decreases ps.len(),
{
    let qs = ps.update(i, (ps[i].0, v));
    if i == ps.len() - 1 {
        assert(qs.drop_last() =~= ps.drop_last());
        assert(to_map(qs) =~= to_map(ps).insert(ps[i].0, v));
    } else {
        assert(qs.drop_last() =~= ps.drop_last().update(i, (ps[i].0, v)));
        lemma_to_map_update(ps.drop_last(), i, v);
        assert(ps[i].0 != ps.last().0);
        assert(to_map(qs) =~= to_map(ps).insert(ps[i].0, v));
    }
}

} // verus!
