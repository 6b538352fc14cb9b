//! Association lists: sequences of `(name, value)` pairs read as maps in which
//! a later pair for a name overrides an earlier one.
use vstd::prelude::*;

verus! {

/// The map that a list of pairs stands for: later pairs win.
pub open spec fn assoc<V>(ps: Seq<(Seq<char>, V)>) -> Map<Seq<char>, V>
    decreases ps.len(),
{
    if ps.len() == 0 {
        Map::empty()
    } else {
        assoc(ps.drop_last()).insert(ps.last().0, ps.last().1)
    }
}

/// No name occurs twice in the list.
pub open spec fn unique_keys<V>(ps: Seq<(Seq<char>, V)>) -> bool {
    forall|i: int, j: int| 0 <= i < j < ps.len() ==> #[trigger] ps[i].0 != #[trigger] ps[j].0
}

pub proof fn lemma_assoc_absent<V>(ps: Seq<(Seq<char>, V)>, k: Seq<char>)
    requires
        forall|i: int| 0 <= i < ps.len() ==> #[trigger] ps[i].0 != k,
    ensures
        !assoc(ps).contains_key(k),
    decreases ps.len(),
{
    if ps.len() > 0 {
        let init = ps.drop_last();
        assert forall|i: int| 0 <= i < init.len() implies #[trigger] init[i].0 != k by {
            assert(init[i] == ps[i]);
        }
        lemma_assoc_absent(init, k);
    }
}

pub proof fn lemma_assoc_index<V>(ps: Seq<(Seq<char>, V)>, i: int)
    requires
        unique_keys(ps),
        0 <= i < ps.len(),
    ensures
        assoc(ps).contains_key(ps[i].0),
        assoc(ps)[ps[i].0] == ps[i].1,
    decreases ps.len(),
{
    if i < ps.len() - 1 {
        let init = ps.drop_last();
        assert(init[i] == ps[i]);
        assert(ps[i].0 != ps[ps.len() - 1].0);
        lemma_assoc_index(init, i);
    }
}

pub proof fn lemma_assoc_update<V>(ps: Seq<(Seq<char>, V)>, i: int, v: V)
    requires
        unique_keys(ps),
        0 <= i < ps.len(),
    ensures
        assoc(ps.update(i, (ps[i].0, v))) == assoc(ps).insert(ps[i].0, v),
        unique_keys(ps.update(i, (ps[i].0, v))),
    decreases ps.len(),
{
    let k = ps[i].0;
    let qs = ps.update(i, (k, v));
    assert(qs.drop_last() =~= if i == ps.len() - 1 {
        ps.drop_last()
    } else {
        ps.drop_last().update(i, (k, v))
    });
    if i < ps.len() - 1 {
        assert(ps.drop_last()[i] == ps[i]);
        lemma_assoc_update(ps.drop_last(), i, v);
        assert(ps.last().0 != k);
        assert(assoc(qs) =~= assoc(ps).insert(k, v));
    } else {
        assert(assoc(qs) =~= assoc(ps).insert(k, v));
    }
    assert forall|a: int, b: int| 0 <= a < b < qs.len() implies #[trigger] qs[a].0
        != #[trigger] qs[b].0 by {
        assert(ps[a].0 != ps[b].0);
    }
}

pub proof fn lemma_assoc_remove<V>(ps: Seq<(Seq<char>, V)>, i: int)
    requires
        unique_keys(ps),
        0 <= i < ps.len(),
    ensures
        assoc(ps.remove(i)) == assoc(ps).remove(ps[i].0),
        unique_keys(ps.remove(i)),
    decreases ps.len(),
{
    let k = ps[i].0;
    let qs = ps.remove(i);
    let init = ps.drop_last();
    if i == ps.len() - 1 {
        assert(qs =~= init);
        assert forall|j: int| 0 <= j < init.len() implies #[trigger] init[j].0 != k by {
            assert(init[j] == ps[j]);
            assert(ps[j].0 != ps[i].0);
        }
        lemma_assoc_absent(init, k);
        assert(assoc(qs) =~= assoc(ps).remove(k));
    } else {
        assert(qs.drop_last() =~= init.remove(i));
        assert(qs.last() == ps.last());
        assert(init[i] == ps[i]);
        lemma_assoc_remove(init, i);
        assert(ps.last().0 != k);
        assert(assoc(qs) =~= assoc(ps).remove(k));
    }
    assert forall|a: int, b: int| 0 <= a < b < qs.len() implies #[trigger] qs[a].0
        != #[trigger] qs[b].0 by {
        if a < i {
            if b < i {
                assert(ps[a].0 != ps[b].0);
            } else {
                assert(ps[a].0 != ps[b + 1].0);
            }
        } else {
            assert(ps[a + 1].0 != ps[b + 1].0);
        }
    }
}

/// Reading `ps ++ qs` as a map lays the map of `qs` over that of `ps`.
pub proof fn lemma_assoc_concat<V>(ps: Seq<(Seq<char>, V)>, qs: Seq<(Seq<char>, V)>)
    ensures
        assoc(ps + qs) == assoc(ps).union_prefer_right(assoc(qs)),
    decreases qs.len(),
{
    if qs.len() == 0 {
        assert(ps + qs =~= ps);
        assert(assoc(ps).union_prefer_right(assoc(qs)) =~= assoc(ps));
    } else {
        assert((ps + qs).drop_last() =~= ps + qs.drop_last());
        lemma_assoc_concat(ps, qs.drop_last());
        assert(assoc(ps + qs) =~= assoc(ps).union_prefer_right(assoc(qs)));
    }
}

} // verus!
