//! Import attribution: assigning each imported symbol to the dependency
//! that defines it. The result is a set of named buckets — one per
//! dependency that could be consulted, plus a reserved sentinel bucket for
//! the imports whose origin could not be determined.

use vstd::prelude::*;

use crate::strutil::{seq_unique, str_eq, vec_contains_str};

verus! {

/// One attribution bucket: a dependency name and the imported symbols
/// resolved to it.
pub struct Bucket {
    pub name: String,
    pub syms: Vec<String>,
}

/// The names of the buckets, in order.
pub open spec fn bucket_names(bs: Seq<Bucket>) -> Seq<Seq<char>> {
    bs.map_values(|b: Bucket| b.name@)
}

/// The buckets read as a map from dependency name to symbol set.
pub open spec fn bmap(bs: Seq<Bucket>) -> Map<Seq<char>, Set<Seq<char>>>
    decreases bs.len(),
{
    if bs.len() == 0 {
        Map::empty()
    } else {
        bmap(bs.drop_last()).insert(bs.last().name@, bs.last().syms.deep_view().to_set())
    }
}

/// A key stands in the map exactly when a bucket bears it.
pub proof fn lemma_bmap_dom(bs: Seq<Bucket>, k: Seq<char>)
    ensures
        bmap(bs).dom().contains(k) <==> bucket_names(bs).contains(k),
    decreases bs.len(),
{
    if bs.len() > 0 {
        lemma_bmap_dom(bs.drop_last(), k);
        assert(bucket_names(bs.drop_last()) =~= bucket_names(bs).drop_last());
        if bmap(bs).dom().contains(k) {
            if k == bs.last().name@ {
                assert(bucket_names(bs)[bs.len() - 1] == k);
            } else {
                let i = choose|i: int|
                    0 <= i < bucket_names(bs.drop_last()).len() && bucket_names(
                        bs.drop_last(),
                    )[i] == k;
                assert(bucket_names(bs)[i] == k);
            }
            assert(bucket_names(bs).contains(k));
        }
        if bucket_names(bs).contains(k) {
            let i = choose|i: int| 0 <= i < bucket_names(bs).len() && bucket_names(bs)[i] == k;
            if i < bs.len() - 1 {
                assert(bucket_names(bs).drop_last()[i] == k);
                assert(bucket_names(bs.drop_last()).contains(k));
            } else {
                assert(k == bs.last().name@);
            }
            assert(bmap(bs).dom().contains(k));
        }
    }
}

/// With every bucket name distinct, the map holds each bucket's symbols
/// under its name.
pub proof fn lemma_bmap_at(bs: Seq<Bucket>, i: int)
    requires
        seq_unique(bucket_names(bs)),
        0 <= i < bs.len(),
    ensures
        bmap(bs).dom().contains(bs[i].name@),
        bmap(bs)[bs[i].name@] == bs[i].syms.deep_view().to_set(),
    decreases bs.len(),
{
    if i == bs.len() - 1 {
    } else {
        assert(bucket_names(bs.drop_last()) =~= bucket_names(bs).drop_last());
        assert(seq_unique(bucket_names(bs.drop_last()))) by {
            assert(forall|a: int, b: int|
                0 <= a < b < bucket_names(bs.drop_last()).len() ==> bucket_names(bs)[a]
                    == bucket_names(bs.drop_last())[a] && bucket_names(bs)[b] == bucket_names(
                    bs.drop_last(),
                )[b]);
        }
        lemma_bmap_at(bs.drop_last(), i);
        assert(bucket_names(bs)[i] != bucket_names(bs)[bs.len() - 1]);
        assert(bs[i].name@ != bs.last().name@);
    }
}

/// Replacing the symbols of one bucket — names untouched and distinct —
/// rewrites its entry of the map and nothing else.
pub proof fn lemma_bmap_update(bs: Seq<Bucket>, i: int, b2: Bucket)
    requires
        seq_unique(bucket_names(bs)),
        0 <= i < bs.len(),
        b2.name@ == bs[i].name@,
    ensures
        bmap(bs.update(i, b2)) == bmap(bs).insert(b2.name@, b2.syms.deep_view().to_set()),
    decreases bs.len(),
{
    let upd = bs.update(i, b2);
    if i == bs.len() - 1 {
        assert(upd.drop_last() =~= bs.drop_last());
        assert(bmap(upd) == bmap(bs.drop_last()).insert(b2.name@, b2.syms.deep_view().to_set()));
        assert(bmap(bs.drop_last()).insert(bs.last().name@, bs.last().syms.deep_view().to_set())
            .insert(b2.name@, b2.syms.deep_view().to_set()) =~= bmap(bs.drop_last()).insert(
            b2.name@,
            b2.syms.deep_view().to_set(),
        ));
    } else {
        assert(bucket_names(bs.drop_last()) =~= bucket_names(bs).drop_last());
        assert(seq_unique(bucket_names(bs.drop_last()))) by {
            assert(forall|a: int, b: int|
                0 <= a < b < bucket_names(bs.drop_last()).len() ==> bucket_names(bs)[a]
                    == bucket_names(bs.drop_last())[a] && bucket_names(bs)[b] == bucket_names(
                    bs.drop_last(),
                )[b]);
        }
        assert(upd.drop_last() =~= bs.drop_last().update(i, b2));
        lemma_bmap_update(bs.drop_last(), i, b2);
        assert(upd.last() == bs.last());
        assert(bucket_names(bs)[i] != bucket_names(bs)[bs.len() - 1]);
        assert(b2.name@ != bs.last().name@);
        assert(bmap(bs.drop_last()).insert(b2.name@, b2.syms.deep_view().to_set()).insert(
            bs.last().name@,
            bs.last().syms.deep_view().to_set(),
        ) =~= bmap(bs.drop_last()).insert(
            bs.last().name@,
            bs.last().syms.deep_view().to_set(),
        ).insert(b2.name@, b2.syms.deep_view().to_set()));
    }
}

/// The index of the bucket bearing `name`, if one does.
pub fn find_bucket(bs: &Vec<Bucket>, name: &str) -> (r: Option<usize>)
    ensures
        match r {
            Some(i) => i < bs@.len() && bs@[i as int].name@ == name@,
            None => !bucket_names(bs@).contains(name@),
        },
{
    let mut i: usize = 0;
    while i < bs.len()
        invariant
            i <= bs@.len(),
            forall|j: int| 0 <= j < i ==> bs@[j].name@ != name@,
        decreases bs@.len() - i,
    {
        if str_eq(bs[i].name.as_str(), name) {
            return Some(i);
        }
        i += 1;
    }
    proof {
        if bucket_names(bs@).contains(name@) {
            let j = choose|j: int|
                0 <= j < bucket_names(bs@).len() && bucket_names(bs@)[j] == name@;
            assert(bs@[j].name@ == name@);
        }
    }
    None
}

/// Some symbol set of the map holds `sym`.
pub open spec fn in_buckets(m: Map<Seq<char>, Set<Seq<char>>>, sym: Seq<char>) -> bool {
    exists|k: Seq<char>| m.dom().contains(k) && #[trigger] m[k].contains(sym)
}

/// No symbol stands in two different symbol sets of the map.
pub open spec fn buckets_disjoint(m: Map<Seq<char>, Set<Seq<char>>>) -> bool {
    forall|k1: Seq<char>, k2: Seq<char>, sym: Seq<char>|
        k1 != k2 && m.dom().contains(k1) && m.dom().contains(k2) && #[trigger] m[k1].contains(sym)
            ==> !(#[trigger] m[k2].contains(sym))
}

/// No symbol set of the map meets `r`.
pub open spec fn buckets_avoid(m: Map<Seq<char>, Set<Seq<char>>>, r: Set<Seq<char>>) -> bool {
    forall|k: Seq<char>, sym: Seq<char>|
        m.dom().contains(k) && #[trigger] m[k].contains(sym) ==> !r.contains(sym)
}

/// The names of the declared dependencies, in declared order.
pub open spec fn dep_names(deps: Seq<(Seq<char>, Option<Set<Seq<char>>>)>) -> Seq<Seq<char>> {
    deps.map_values(|d: (Seq<char>, Option<Set<Seq<char>>>)| d.0)
}

/// The greedy attribution pass, one declared dependency at a time, in
/// declared order: a dependency whose exports could be read claims from the
/// still-unresolved remainder exactly the symbols it exports; one whose
/// path or parse failed claims nothing. Returns the buckets built so far
/// and the final remainder.
pub open spec fn attr_step(
    acc: Map<Seq<char>, Set<Seq<char>>>,
    rem: Set<Seq<char>>,
    deps: Seq<(Seq<char>, Option<Set<Seq<char>>>)>,
) -> (Map<Seq<char>, Set<Seq<char>>>, Set<Seq<char>>)
    decreases deps.len(),
{
    if deps.len() == 0 {
        (acc, rem)
    } else {
        let d = deps[0];
        match d.1 {
            None => attr_step(acc, rem, deps.drop_first()),
            Some(e) => {
                let claimed = rem.intersect(e);
                let prev = if acc.dom().contains(d.0) {
                    acc[d.0]
                } else {
                    Set::empty()
                };
                attr_step(
                    acc.insert(d.0, prev.union(claimed)),
                    rem.difference(e),
                    deps.drop_first(),
                )
            },
        }
    }
}

/// The remainder joined into the reserved bucket, when any of it is left.
pub open spec fn with_sentinel(
    m: Map<Seq<char>, Set<Seq<char>>>,
    rem: Set<Seq<char>>,
) -> Map<Seq<char>, Set<Seq<char>>> {
    if rem.is_empty() {
        m
    } else {
        let prev = if m.dom().contains(sentinel_name()) {
            m[sentinel_name()]
        } else {
            Set::empty()
        };
        m.insert(sentinel_name(), prev.union(rem))
    }
}

/// The pass only adds: no bucket loses a symbol, and every bucket it adds
/// bears the name of some declared dependency.
pub proof fn lemma_attr_step_grows(
    acc: Map<Seq<char>, Set<Seq<char>>>,
    rem: Set<Seq<char>>,
    deps: Seq<(Seq<char>, Option<Set<Seq<char>>>)>,
)
    ensures
        ({
            let (m, r) = attr_step(acc, rem, deps);
            &&& forall|k: Seq<char>| #![auto]
                acc.dom().contains(k) ==> m.dom().contains(k) && acc[k].subset_of(m[k])
            &&& forall|k: Seq<char>| #![auto]
                m.dom().contains(k) ==> acc.dom().contains(k) || dep_names(deps).contains(k)
        }),
    decreases deps.len(),
{
    if deps.len() == 0 {
    } else {
        let d = deps[0];
        let (m, r) = attr_step(acc, rem, deps);
        match d.1 {
            None => {
                lemma_attr_step_grows(acc, rem, deps.drop_first());
                assert forall|k: Seq<char>| #![auto] m.dom().contains(k) implies acc.dom()
                    .contains(k) || dep_names(deps).contains(k) by {
                    if !acc.dom().contains(k) {
                        let j = choose|j: int|
                            0 <= j < dep_names(deps.drop_first()).len() && dep_names(
                                deps.drop_first(),
                            )[j] == k;
                        assert(dep_names(deps)[j + 1] == k);
                    }
                }
            },
            Some(e) => {
                let claimed = rem.intersect(e);
                let prev = if acc.dom().contains(d.0) {
                    acc[d.0]
                } else {
                    Set::empty()
                };
                let acc2 = acc.insert(d.0, prev.union(claimed));
                lemma_attr_step_grows(acc2, rem.difference(e), deps.drop_first());
                assert forall|k: Seq<char>| #![auto] acc.dom().contains(k) implies m.dom()
                    .contains(k) && acc[k].subset_of(m[k]) by {
                    assert(acc2.dom().contains(k));
                    assert(acc[k].subset_of(acc2[k]));
                    assert(acc2[k].subset_of(m[k]));
                }
                assert forall|k: Seq<char>| #![auto] m.dom().contains(k) implies acc.dom()
                    .contains(k) || dep_names(deps).contains(k) by {
                    if !acc2.dom().contains(k) {
                        let j = choose|j: int|
                            0 <= j < dep_names(deps.drop_first()).len() && dep_names(
                                deps.drop_first(),
                            )[j] == k;
                        assert(dep_names(deps)[j + 1] == k);
                    } else if k == d.0 {
                        assert(dep_names(deps)[0] == k);
                    }
                }
            },
        }
    }
}

/// CONSERVATION, one pass at a time: what stands in the buckets or the
/// remainder is exactly what stood there before the pass, the buckets stay
/// pairwise disjoint, none meets the remainder, and the remainder only
/// shrinks.
pub proof fn lemma_attr_step_conserves(
    acc: Map<Seq<char>, Set<Seq<char>>>,
    rem: Set<Seq<char>>,
    deps: Seq<(Seq<char>, Option<Set<Seq<char>>>)>,
)
    requires
        buckets_disjoint(acc),
        buckets_avoid(acc, rem),
    ensures
        ({
            let (m, r) = attr_step(acc, rem, deps);
            &&& forall|sym: Seq<char>| #![auto]
                (in_buckets(m, sym) || r.contains(sym)) <==> (in_buckets(acc, sym)
                    || rem.contains(sym))
            &&& buckets_disjoint(m)
            &&& buckets_avoid(m, r)
            &&& r.subset_of(rem)
        }),
    decreases deps.len(),
{
    if deps.len() == 0 {
    } else {
        let d = deps[0];
        let (m, r) = attr_step(acc, rem, deps);
        match d.1 {
            None => {
                lemma_attr_step_conserves(acc, rem, deps.drop_first());
            },
            Some(e) => {
                let claimed = rem.intersect(e);
                let prev = if acc.dom().contains(d.0) {
                    acc[d.0]
                } else {
                    Set::empty()
                };
                let acc2 = acc.insert(d.0, prev.union(claimed));
                let rem2 = rem.difference(e);
                lemma_claim_preserves(acc, rem, d.0, e);
                lemma_attr_step_conserves(acc2, rem2, deps.drop_first());
                assert forall|sym: Seq<char>| #![auto]
                    (in_buckets(acc2, sym) || rem2.contains(sym)) implies (in_buckets(acc, sym)
                    || rem.contains(sym)) by {
                    if in_buckets(acc2, sym) {
                        let k = choose|k: Seq<char>|
                            acc2.dom().contains(k) && #[trigger] acc2[k].contains(sym);
                        if k == d.0 {
                            if prev.contains(sym) {
                                assert(acc.dom().contains(d.0) && acc[d.0].contains(sym));
                                assert(in_buckets(acc, sym));
                            } else {
                                assert(rem.contains(sym));
                            }
                        } else {
                            assert(acc.dom().contains(k) && acc[k].contains(sym));
                            assert(in_buckets(acc, sym));
                        }
                    }
                }
                assert forall|sym: Seq<char>| #![auto]
                    (in_buckets(acc, sym) || rem.contains(sym)) implies (in_buckets(acc2, sym)
                    || rem2.contains(sym)) by {
                    if in_buckets(acc, sym) {
                        let k = choose|k: Seq<char>|
                            acc.dom().contains(k) && #[trigger] acc[k].contains(sym);
                        if k == d.0 {
                            assert(acc2[d.0].contains(sym));
                        } else {
                            assert(acc2.dom().contains(k) && acc2[k].contains(sym));
                        }
                        assert(in_buckets(acc2, sym));
                    } else {
                        if e.contains(sym) {
                            assert(claimed.contains(sym));
                            assert(acc2[d.0].contains(sym));
                            assert(in_buckets(acc2, sym));
                        } else {
                            assert(rem2.contains(sym));
                        }
                    }
                }
            },
        }
    }
}

/// DETERMINISM AND TIE-BREAK: a symbol of the remainder goes to the first
/// declared dependency whose exports could be read and hold it, whatever
/// later dependencies export.
pub proof fn lemma_attr_step_first_claims(
    acc: Map<Seq<char>, Set<Seq<char>>>,
    rem: Set<Seq<char>>,
    deps: Seq<(Seq<char>, Option<Set<Seq<char>>>)>,
    i: int,
    sym: Seq<char>,
)
    requires
        0 <= i < deps.len(),
        deps[i].1 is Some,
        deps[i].1->0.contains(sym),
        forall|j: int| 0 <= j < i ==> !(#[trigger] deps[j].1 is Some && deps[j].1->0.contains(sym)),
        rem.contains(sym),
    ensures
        ({
            let (m, r) = attr_step(acc, rem, deps);
            m.dom().contains(deps[i].0) && m[deps[i].0].contains(sym)
        }),
    decreases deps.len(),
{
    let d = deps[0];
    match d.1 {
        None => {
            assert(i != 0);
            assert forall|j: int| 0 <= j < i - 1 implies !(#[trigger] deps.drop_first()[j].1
                is Some && deps.drop_first()[j].1->0.contains(sym)) by {
                assert(deps.drop_first()[j] == deps[j + 1]);
            }
            assert(deps.drop_first()[i - 1] == deps[i]);
            lemma_attr_step_first_claims(acc, rem, deps.drop_first(), i - 1, sym);
            assert(attr_step(acc, rem, deps) == attr_step(acc, rem, deps.drop_first()));
        },
        Some(e) => {
            let claimed = rem.intersect(e);
            let prev = if acc.dom().contains(d.0) {
                acc[d.0]
            } else {
                Set::empty()
            };
            let acc2 = acc.insert(d.0, prev.union(claimed));
            let rem2 = rem.difference(e);
            assert(attr_step(acc, rem, deps) == attr_step(acc2, rem2, deps.drop_first()));
            if i == 0 {
                assert(claimed.contains(sym));
                assert(acc2[d.0].contains(sym));
                lemma_attr_step_grows(acc2, rem2, deps.drop_first());
                let m = attr_step(acc2, rem2, deps.drop_first()).0;
                assert(acc2.dom().contains(d.0));
                assert(m.dom().contains(d.0) && acc2[d.0].subset_of(m[d.0]));
            } else {
                assert(!(deps[0].1 is Some && deps[0].1->0.contains(sym)));
                assert(!e.contains(sym));
                assert(rem2.contains(sym));
                assert forall|j: int| 0 <= j < i - 1 implies !(#[trigger] deps.drop_first()[j].1
                    is Some && deps.drop_first()[j].1->0.contains(sym)) by {
                    assert(deps.drop_first()[j] == deps[j + 1]);
                }
                assert(deps.drop_first()[i - 1] == deps[i]);
                lemma_attr_step_first_claims(acc2, rem2, deps.drop_first(), i - 1, sym);
            }
        },
    }
}

/// CONSERVATION, whole: with the remainder folded into the reserved
/// bucket, the buckets of the attribution are pairwise disjoint and
/// together hold exactly the import set.
pub proof fn lemma_attribution_conserves(
    imports: Set<Seq<char>>,
    deps: Seq<(Seq<char>, Option<Set<Seq<char>>>)>,
)
    ensures
        ({
            let (m, r) = attr_step(Map::empty(), imports, deps);
            let m1 = with_sentinel(m, r);
            &&& forall|sym: Seq<char>| #![auto] in_buckets(m1, sym) <==> imports.contains(sym)
            &&& buckets_disjoint(m1)
        }),
{
    let (m, r) = attr_step(Map::empty(), imports, deps);
    let m1 = with_sentinel(m, r);
    lemma_attr_step_conserves(Map::empty(), imports, deps);
    assert(forall|sym: Seq<char>| !in_buckets(Map::<Seq<char>, Set<Seq<char>>>::empty(), sym));
    if r.is_empty() {
        assert forall|sym: Seq<char>| #![auto] in_buckets(m1, sym) <==> imports.contains(
            sym,
        ) by {
            assert(!r.contains(sym));
        }
    } else {
        let prev = if m.dom().contains(sentinel_name()) {
            m[sentinel_name()]
        } else {
            Set::empty()
        };
        assert forall|sym: Seq<char>| #![auto] in_buckets(m1, sym) implies imports.contains(
            sym,
        ) by {
            let k = choose|k: Seq<char>| m1.dom().contains(k) && #[trigger] m1[k].contains(sym);
            if k == sentinel_name() {
                if prev.contains(sym) {
                    assert(in_buckets(m, sym));
                } else {
                    assert(r.contains(sym));
                }
            } else {
                assert(m[k].contains(sym));
                assert(in_buckets(m, sym));
            }
        }
        assert forall|sym: Seq<char>| #![auto] imports.contains(sym) implies in_buckets(
            m1,
            sym,
        ) by {
            if r.contains(sym) {
                assert(m1[sentinel_name()].contains(sym));
                assert(in_buckets(m1, sym));
            } else {
                let k = choose|k: Seq<char>| m.dom().contains(k) && #[trigger] m[k].contains(sym);
                if k == sentinel_name() {
                    assert(m1[sentinel_name()].contains(sym));
                } else {
                    assert(m1.dom().contains(k) && m1[k].contains(sym));
                }
                assert(in_buckets(m1, sym));
            }
        }
        assert(buckets_disjoint(m1)) by {
            assert forall|k1: Seq<char>, k2: Seq<char>, sym: Seq<char>|
                k1 != k2 && m1.dom().contains(k1) && m1.dom().contains(k2) && #[trigger] m1[k1]
                    .contains(sym) implies !(#[trigger] m1[k2].contains(sym)) by {
                if k1 == sentinel_name() {
                    if prev.contains(sym) {
                        assert(!m[k2].contains(sym));
                    } else {
                        assert(r.contains(sym));
                        assert(!m[k2].contains(sym));
                    }
                } else if k2 == sentinel_name() {
                    assert(m[k1].contains(sym));
                    assert(!r.contains(sym));
                    if m.dom().contains(sentinel_name()) {
                        assert(!m[sentinel_name()].contains(sym) || k1 == sentinel_name());
                    }
                }
            }
        }
    }
}

/// The regrouping of imports that already carry their origin: each
/// (origin, symbol) pair goes into the origin's bucket.
pub open spec fn group_step(
    acc: Map<Seq<char>, Set<Seq<char>>>,
    items: Seq<(Seq<char>, Seq<char>)>,
) -> Map<Seq<char>, Set<Seq<char>>>
    decreases items.len(),
{
    if items.len() == 0 {
        acc
    } else {
        let it = items[0];
        let prev = if acc.dom().contains(it.0) {
            acc[it.0]
        } else {
            Set::empty()
        };
        group_step(acc.insert(it.0, prev.insert(it.1)), items.drop_first())
    }
}

/// What the regrouping holds: a symbol stands in a bucket exactly when
/// some item carried that origin and symbol.
pub proof fn lemma_group_chars(
    acc: Map<Seq<char>, Set<Seq<char>>>,
    items: Seq<(Seq<char>, Seq<char>)>,
    k: Seq<char>,
    sym: Seq<char>,
)
    ensures
        ({
            let m = group_step(acc, items);
            (m.dom().contains(k) && m[k].contains(sym)) <==> ((acc.dom().contains(k)
                && acc[k].contains(sym)) || exists|i: int|
                0 <= i < items.len() && #[trigger] items[i] == (k, sym))
        }),
    decreases items.len(),
{
    let m = group_step(acc, items);
    if items.len() == 0 {
    } else {
        let it = items[0];
        let prev = if acc.dom().contains(it.0) {
            acc[it.0]
        } else {
            Set::empty()
        };
        let acc2 = acc.insert(it.0, prev.insert(it.1));
        lemma_group_chars(acc2, items.drop_first(), k, sym);
        if m.dom().contains(k) && m[k].contains(sym) {
            if acc2.dom().contains(k) && acc2[k].contains(sym) {
                if k == it.0 && sym == it.1 {
                    assert(items[0] == (k, sym));
                } else if k == it.0 {
                    if !prev.contains(sym) {
                        assert(false);
                    }
                }
            } else {
                let i = choose|i: int|
                    0 <= i < items.drop_first().len() && #[trigger] items.drop_first()[i] == (
                    k,
                    sym,
                );
                assert(items[i + 1] == (k, sym));
            }
        }
        if (acc.dom().contains(k) && acc[k].contains(sym)) || (exists|i: int|
            0 <= i < items.len() && #[trigger] items[i] == (k, sym))
        {
            if acc.dom().contains(k) && acc[k].contains(sym) {
                assert(acc2.dom().contains(k) && acc2[k].contains(sym));
            } else {
                let i = choose|i: int| 0 <= i < items.len() && #[trigger] items[i] == (k, sym);
                if i == 0 {
                    assert(acc2[it.0].contains(it.1));
                } else {
                    assert(items.drop_first()[i - 1] == (k, sym));
                }
            }
        }
    }
}

/// CONSERVATION for regrouped origins: the buckets together hold exactly
/// the imported symbols; and when no symbol arrives under two different
/// origins, the buckets are pairwise disjoint.
pub proof fn lemma_group_conserves(items: Seq<(Seq<char>, Seq<char>)>)
    ensures
        ({
            let m = group_step(Map::empty(), items);
            &&& forall|sym: Seq<char>| #![auto]
                in_buckets(m, sym) <==> (exists|i: int|
                    0 <= i < items.len() && #[trigger] items[i].1 == sym)
            &&& (forall|i: int, j: int|
                0 <= i < items.len() && 0 <= j < items.len() && #[trigger] items[i].1
                    == #[trigger] items[j].1 ==> items[i].0 == items[j].0) ==> buckets_disjoint(m)
        }),
{
    let m = group_step(Map::empty(), items);
    assert forall|sym: Seq<char>| #![auto] in_buckets(m, sym) implies (exists|i: int|
        0 <= i < items.len() && #[trigger] items[i].1 == sym) by {
        let k = choose|k: Seq<char>| m.dom().contains(k) && #[trigger] m[k].contains(sym);
        lemma_group_chars(Map::empty(), items, k, sym);
        let i = choose|i: int| 0 <= i < items.len() && #[trigger] items[i] == (k, sym);
        assert(items[i].1 == sym);
    }
    assert forall|sym: Seq<char>| #![auto] (exists|i: int|
        0 <= i < items.len() && #[trigger] items[i].1 == sym) implies in_buckets(m, sym) by {
        let i = choose|i: int| 0 <= i < items.len() && #[trigger] items[i].1 == sym;
        lemma_group_chars(Map::empty(), items, items[i].0, sym);
        assert(items[i] == (items[i].0, sym));
        assert(m.dom().contains(items[i].0) && m[items[i].0].contains(sym));
        assert(in_buckets(m, sym));
    }
    if forall|i: int, j: int|
        0 <= i < items.len() && 0 <= j < items.len() && #[trigger] items[i].1 == #[trigger] items[j].1
            ==> items[i].0 == items[j].0 {
        assert forall|k1: Seq<char>, k2: Seq<char>, sym: Seq<char>|
            k1 != k2 && m.dom().contains(k1) && m.dom().contains(k2) && #[trigger] m[k1].contains(
                sym,
            ) implies !(#[trigger] m[k2].contains(sym)) by {
            if m[k2].contains(sym) {
                lemma_group_chars(Map::empty(), items, k1, sym);
                lemma_group_chars(Map::empty(), items, k2, sym);
                let i = choose|i: int| 0 <= i < items.len() && #[trigger] items[i] == (k1, sym);
                let j = choose|j: int| 0 <= j < items.len() && #[trigger] items[j] == (k2, sym);
                assert(items[i].1 == items[j].1);
            }
        }
    }
}

/// The declared dependencies as the attribution pass reads them: each name
/// beside its export set, where one could be read.
pub open spec fn deps_view(
    libs: Seq<Seq<char>>,
    exps: Seq<Option<Seq<Seq<char>>>>,
) -> Seq<(Seq<char>, Option<Set<Seq<char>>>)>
    recommends
        libs.len() == exps.len(),
{
    Seq::new(
        libs.len(),
        |i: int|
            (
                libs[i],
                match exps[i] {
                    None => None,
                    Some(e) => Some(e.to_set()),
                },
            ),
    )
}

/// One claim step keeps the buckets pairwise disjoint and clear of the new
/// remainder.
pub proof fn lemma_claim_preserves(
    acc: Map<Seq<char>, Set<Seq<char>>>,
    rem: Set<Seq<char>>,
    name: Seq<char>,
    e: Set<Seq<char>>,
)
    requires
        buckets_disjoint(acc),
        buckets_avoid(acc, rem),
    ensures
        ({
            let claimed = rem.intersect(e);
            let prev = if acc.dom().contains(name) {
                acc[name]
            } else {
                Set::empty()
            };
            let acc2 = acc.insert(name, prev.union(claimed));
            buckets_disjoint(acc2) && buckets_avoid(acc2, rem.difference(e))
        }),
{
    let claimed = rem.intersect(e);
    let prev = if acc.dom().contains(name) {
        acc[name]
    } else {
        Set::empty()
    };
    let acc2 = acc.insert(name, prev.union(claimed));
    assert forall|k1: Seq<char>, k2: Seq<char>, sym: Seq<char>|
        k1 != k2 && acc2.dom().contains(k1) && acc2.dom().contains(k2) && #[trigger] acc2[k1]
            .contains(sym) implies !(#[trigger] acc2[k2].contains(sym)) by {
        if k1 == name {
            if prev.contains(sym) {
                assert(acc.dom().contains(name));
                assert(!acc[k2].contains(sym));
            } else {
                assert(rem.contains(sym));
                assert(!acc[k2].contains(sym));
            }
        } else if k2 == name {
            assert(acc[k1].contains(sym));
            assert(!rem.contains(sym));
            if acc.dom().contains(name) {
                assert(!acc[name].contains(sym) || k1 == name);
            }
        }
    }
    assert forall|k: Seq<char>, sym: Seq<char>|
        acc2.dom().contains(k) && #[trigger] acc2[k].contains(sym) implies !rem.difference(
        e,
    ).contains(sym) by {
        if k == name {
            if prev.contains(sym) {
                assert(!rem.contains(sym));
            }
        } else {
            assert(acc[k].contains(sym));
        }
    }
}

/// Joins `syms` into the bucket named `name`, creating the bucket when
/// none bears the name yet.
pub fn add_to_bucket(buckets: &mut Vec<Bucket>, name: String, syms: Vec<String>)
    requires
        seq_unique(bucket_names(old(buckets)@)),
        forall|t: int| #![auto]
            0 <= t < old(buckets)@.len() ==> seq_unique(old(buckets)@[t].syms.deep_view()),
        seq_unique(syms.deep_view()),
        forall|sym: Seq<char>| #![auto]
            syms.deep_view().contains(sym) ==> !in_buckets(bmap(old(buckets)@), sym),
    ensures
        seq_unique(bucket_names(final(buckets)@)),
        forall|t: int| #![auto]
            0 <= t < final(buckets)@.len() ==> seq_unique(final(buckets)@[t].syms.deep_view()),
        bmap(final(buckets)@) == ({
            let m = bmap(old(buckets)@);
            let prev = if m.dom().contains(name@) {
                m[name@]
            } else {
                Set::empty()
            };
            m.insert(name@, prev.union(syms.deep_view().to_set()))
        }),
{
    let ghost bs0 = buckets@;
    let ghost m0 = bmap(buckets@);
    match find_bucket(buckets, name.as_str()) {
        None => {
            proof {
                lemma_bmap_dom(bs0, name@);
            }
            let ghost nm = name@;
            let b = Bucket { name, syms };
            buckets.push(b);
            proof {
                assert(buckets@.drop_last() =~= bs0);
                assert(bmap(buckets@) == m0.insert(
                    buckets@.last().name@,
                    buckets@.last().syms.deep_view().to_set(),
                ));
                assert(!m0.dom().contains(nm));
                assert(Set::empty().union(buckets@.last().syms.deep_view().to_set())
                    =~= buckets@.last().syms.deep_view().to_set());
                assert forall|t: int| 0 <= t < bs0.len() implies bucket_names(bs0)[t] != nm by {
                    if bucket_names(bs0)[t] == nm {
                        assert(bucket_names(bs0).contains(nm));
                    }
                }
                assert(seq_unique(bucket_names(buckets@))) by {
                    assert(forall|t: int|
                        0 <= t < bs0.len() ==> bucket_names(buckets@)[t] == bucket_names(
                            bs0,
                        )[t]);
                    assert(bucket_names(buckets@)[bs0.len() as int] == nm);
                    assert forall|i: int, j: int|
                        0 <= i < j < bucket_names(buckets@).len() implies bucket_names(
                        buckets@,
                    )[i] != bucket_names(buckets@)[j] by {
                        if j == bs0.len() {
                            assert(bucket_names(buckets@)[i] == bucket_names(bs0)[i]);
                        } else {
                            assert(bucket_names(bs0)[i] != bucket_names(bs0)[j]);
                        }
                    }
                }
                assert(forall|t: int| #![auto]
                    0 <= t < buckets@.len() ==> seq_unique(buckets@[t].syms.deep_view()));
            }
        },
        Some(bi) => {
            let ghost old_b = bs0[bi as int];
            proof {
                lemma_bmap_at(bs0, bi as int);
            }
            let mut b = buckets.remove(bi);
            let mut extra = syms;
            let ghost old_syms = b.syms.deep_view();
            b.syms.append(&mut extra);
            proof {
                assert(b.syms.deep_view() =~= old_syms + syms.deep_view());
            }
            buckets.insert(bi, b);
            proof {
                let b2 = buckets@[bi as int];
                assert(buckets@ =~= bs0.update(bi as int, b2));
                assert(b2.name@ == name@);
                assert(b2.name@ == bs0[bi as int].name@);
                lemma_bmap_update(bs0, bi as int, b2);
                assert(b2.syms.deep_view().to_set() =~= m0[name@].union(
                    syms.deep_view().to_set(),
                )) by {
                    assert forall|sym: Seq<char>| #![auto]
                        b2.syms.deep_view().contains(sym) <==> (old_syms.contains(sym)
                            || syms.deep_view().contains(sym)) by {
                        if b2.syms.deep_view().contains(sym) {
                            let t = choose|t: int|
                                0 <= t < b2.syms.deep_view().len() && b2.syms.deep_view()[t]
                                    == sym;
                            if t < old_syms.len() {
                                assert(old_syms[t] == sym);
                            } else {
                                assert(syms.deep_view()[t - old_syms.len()] == sym);
                            }
                        }
                        if old_syms.contains(sym) {
                            let t = choose|t: int|
                                0 <= t < old_syms.len() && old_syms[t] == sym;
                            assert(b2.syms.deep_view()[t] == sym);
                        }
                        if syms.deep_view().contains(sym) {
                            let t = choose|t: int|
                                0 <= t < syms.deep_view().len() && syms.deep_view()[t] == sym;
                            assert(b2.syms.deep_view()[old_syms.len() + t] == sym);
                        }
                    }
                }
                assert(seq_unique(b2.syms.deep_view())) by {
                    assert forall|i: int, j: int|
                        0 <= i < j < b2.syms.deep_view().len() implies b2.syms.deep_view()[i]
                        != b2.syms.deep_view()[j] by {
                        let n1 = old_syms.len() as int;
                        if i < n1 && j >= n1 {
                            if b2.syms.deep_view()[i] == b2.syms.deep_view()[j] {
                                let sym = old_syms[i];
                                assert(syms.deep_view()[j - n1] == sym);
                                assert(syms.deep_view().contains(sym));
                                assert(m0.dom().contains(old_b.name@) && m0[old_b.name@]
                                    .contains(sym)) by {
                                    assert(old_syms[i] == sym);
                                    assert(old_syms.contains(sym));
                                }
                                assert(in_buckets(m0, sym));
                            }
                        } else if i >= n1 {
                            assert(syms.deep_view()[i - n1] != syms.deep_view()[j - n1]);
                        } else {
                            assert(old_syms[i] != old_syms[j]);
                        }
                    }
                }
                assert(seq_unique(bucket_names(buckets@))) by {
                    assert(bucket_names(buckets@) =~= bucket_names(bs0));
                }
                assert(forall|t: int| #![auto]
                    0 <= t < buckets@.len() ==> seq_unique(buckets@[t].syms.deep_view())) by {
                    assert(forall|t: int|
                        0 <= t < buckets@.len() && t != bi ==> buckets@[t] == bs0[t]);
                }
            }
        },
    }
}

/// The reserved name under which unattributed imports are grouped.
pub open spec fn sentinel_name() -> Seq<char> {
    "<Unknown dependency>"@
}

/// The reserved name under which unattributed imports are grouped.
pub fn sentinel() -> (r: String)
    ensures
        r@ == sentinel_name(),
{
    String::from_str("<Unknown dependency>")
}

} // verus!
