//! Grouping of the ordered input pairs into an ordered multimap.

use vstd::prelude::*;

verus! {

/// The values that `pairs` carries under `key`, in input order, duplicates
/// retained.
pub open spec fn values_for(pairs: Seq<(Seq<char>, Seq<char>)>, key: Seq<char>) -> Seq<Seq<char>>
    decreases pairs.len(),
{
    if pairs.len() == 0 {
        Seq::empty()
    } else {
        let rest = values_for(pairs.drop_last(), key);
        if pairs.last().0 == key {
            rest.push(pairs.last().1)
        } else {
            rest
        }
    }
}

/// The distinct keys of `pairs`, in first-seen order.
pub open spec fn first_seen_keys(pairs: Seq<(Seq<char>, Seq<char>)>) -> Seq<Seq<char>>
    decreases pairs.len(),
{
    if pairs.len() == 0 {
        Seq::empty()
    } else {
        let rest = first_seen_keys(pairs.drop_last());
        if rest.contains(pairs.last().0) {
            rest
        } else {
            rest.push(pairs.last().0)
        }
    }
}

/// The values recorded under `key` in `groups`, the first matching group
/// winning; a key with no group behaves as an empty list.
pub open spec fn lookup(groups: Seq<(Seq<char>, Seq<Seq<char>>)>, key: Seq<char>) -> Seq<Seq<char>>
    decreases groups.len(),
{
    if groups.len() == 0 {
        Seq::empty()
    } else if groups.first().0 == key {
        groups.first().1
    } else {
        lookup(groups.drop_first(), key)
    }
}

/// The keys of `groups`, in group order.
pub open spec fn group_keys(groups: Seq<(Seq<char>, Seq<Seq<char>>)>) -> Seq<Seq<char>> {
    groups.map_values(|g: (Seq<char>, Seq<Seq<char>>)| g.0)
}

/// When no group before `i` holds `key`, the lookup is decided by the
/// groups from `i` on.
proof fn lemma_lookup_skip(groups: Seq<(Seq<char>, Seq<Seq<char>>)>, key: Seq<char>, i: int)
    requires
        0 <= i <= groups.len(),
        forall|t: int| 0 <= t < i ==> (#[trigger] groups[t]).0 != key,
    ensures
        lookup(groups, key) == lookup(groups.skip(i), key),
    decreases i,
{
    if i > 0 {
        assert(groups.first().0 != key);
        assert(forall|t: int|
            0 <= t < i - 1 ==> (#[trigger] groups.drop_first()[t]).0 == groups[t + 1].0);
        lemma_lookup_skip(groups.drop_first(), key, i - 1);
        assert(groups.drop_first().skip(i - 1) =~= groups.skip(i));
    } else {
        assert(groups.skip(0) =~= groups);
    }
}

/// Appending values to the group that holds `key` changes the lookup for
/// `key` alone.
proof fn lemma_lookup_update(
    groups: Seq<(Seq<char>, Seq<Seq<char>>)>,
    j: int,
    w: Seq<Seq<char>>,
    key: Seq<char>,
)
    requires
        0 <= j < groups.len(),
        groups[j].0 == key,
        forall|t: int| 0 <= t < j ==> (#[trigger] groups[t]).0 != key,
    ensures
        forall|k: Seq<char>| #[trigger] lookup(groups.update(j, (key, w)), k) == (if k == key {
            w
        } else {
            lookup(groups, k)
        }),
    decreases j,
{
    let updated = groups.update(j, (key, w));
    if j == 0 {
        assert forall|k: Seq<char>| #[trigger] lookup(updated, k) == (if k == key {
            w
        } else {
            lookup(groups, k)
        }) by {
            assert(updated.first() == (key, w));
            if k != key {
                assert(updated.drop_first() =~= groups.drop_first());
            }
        }
    } else {
        assert(forall|t: int|
            0 <= t < j - 1 ==> (#[trigger] groups.drop_first()[t]).0 == groups[t + 1].0);
        lemma_lookup_update(groups.drop_first(), j - 1, w, key);
        assert forall|k: Seq<char>| #[trigger] lookup(updated, k) == (if k == key {
            w
        } else {
            lookup(groups, k)
        }) by {
            assert(updated.first() == groups.first());
            assert(updated.drop_first() =~= groups.drop_first().update(j - 1, (key, w)));
            assert(lookup(groups.drop_first().update(j - 1, (key, w)), k) == (if k == key {
                w
            } else {
                lookup(groups.drop_first(), k)
            }));
        }
    }
}

/// Appending a fresh group changes the lookup for its key alone.
proof fn lemma_lookup_push(
    groups: Seq<(Seq<char>, Seq<Seq<char>>)>,
    key: Seq<char>,
    vs: Seq<Seq<char>>,
)
    requires
        forall|t: int| 0 <= t < groups.len() ==> (#[trigger] groups[t]).0 != key,
    ensures
        forall|k: Seq<char>| #[trigger] lookup(groups.push((key, vs)), k) == (if k == key {
            vs
        } else {
            lookup(groups, k)
        }),
    decreases groups.len(),
{
    let pushed = groups.push((key, vs));
    if groups.len() == 0 {
        assert forall|k: Seq<char>| #[trigger] lookup(pushed, k) == (if k == key {
            vs
        } else {
            lookup(groups, k)
        }) by {
            assert(pushed.first() == (key, vs));
            assert(pushed.drop_first() =~= Seq::<(Seq<char>, Seq<Seq<char>>)>::empty());
            assert(lookup(Seq::<(Seq<char>, Seq<Seq<char>>)>::empty(), k)
                == Seq::<Seq<char>>::empty());
        }
    } else {
        assert(forall|t: int|
            0 <= t < groups.len() - 1 ==> (#[trigger] groups.drop_first()[t]).0 == groups[t
                + 1].0);
        lemma_lookup_push(groups.drop_first(), key, vs);
        assert forall|k: Seq<char>| #[trigger] lookup(pushed, k) == (if k == key {
            vs
        } else {
            lookup(groups, k)
        }) by {
            assert(pushed.first() == groups.first());
            assert(pushed.drop_first() =~= groups.drop_first().push((key, vs)));
            assert(lookup(groups.drop_first().push((key, vs)), k) == (if k == key {
                vs
            } else {
                lookup(groups.drop_first(), k)
            }));
        }
    }
}

/// An ordered multimap from submission key to the raw string values seen
/// for it, keys in first-seen order, values in input order.
pub struct AggregatedValues {
    pub groups: Vec<(String, Vec<String>)>,
}

impl View for AggregatedValues {
    type V = Seq<(Seq<char>, Seq<Seq<char>>)>;

    open spec fn view(&self) -> Seq<(Seq<char>, Seq<Seq<char>>)> {
        self.groups.deep_view()
    }
}

impl AggregatedValues {
    /// An aggregation with no keys at all.
    pub fn new() -> (r: AggregatedValues)
        ensures
            r@ =~= Seq::<(Seq<char>, Seq<Seq<char>>)>::empty(),
    {
        AggregatedValues { groups: Vec::new() }
    }

    /// The raw values recorded under `key`, if any group holds it.
    pub fn get(&self, key: &String) -> (r: Option<&Vec<String>>)
        ensures
            match r {
                Some(v) => v.deep_view() == lookup(self@, key@) && group_keys(self@).contains(
                    key@,
                ),
                None => lookup(self@, key@) == Seq::<Seq<char>>::empty() && !group_keys(
                    self@,
                ).contains(key@),
            },
    {
        let n = self.groups.len();
        let mut j: usize = 0;
        while j < n
            invariant
                n == self.groups.len(),
                j <= n,
                forall|t: int| 0 <= t < j ==> (#[trigger] self@[t]).0 != key@,
            decreases n - j,
        {
            proof {
                assert(self@[j as int].0 == self.groups@[j as int].0@);
            }
            if self.groups[j].0.eq(key) {
                proof {
                    lemma_lookup_skip(self@, key@, j as int);
                    assert(self@.skip(j as int).first() == self@[j as int]);
                    assert(self@[j as int].0 == key@);
                    assert(group_keys(self@)[j as int] == self@[j as int].0);
                }
                return Some(&self.groups[j].1);
            }
            j = j + 1;
        }
        proof {
            lemma_lookup_skip(self@, key@, n as int);
            assert(self@.skip(n as int) =~= Seq::<(Seq<char>, Seq<Seq<char>>)>::empty());
            assert(!group_keys(self@).contains(key@)) by {
                if group_keys(self@).contains(key@) {
                    let t = choose|t: int|
                        0 <= t < group_keys(self@).len() && group_keys(self@)[t] == key@;
                    assert(group_keys(self@)[t] == self@[t].0);
                }
            }
        }
        None
    }
}

/// The index of the first group of `groups` that holds `key`, if any.
fn find_group(groups: &Vec<(String, Vec<String>)>, key: &String) -> (r: Option<usize>)
    ensures
        match r {
            Some(j) => j < groups.len() && groups.deep_view()[j as int].0 == key@ && forall|t: int|
                0 <= t < j ==> (#[trigger] groups.deep_view()[t]).0 != key@,
            None => forall|t: int|
                0 <= t < groups.len() ==> (#[trigger] groups.deep_view()[t]).0 != key@,
        },
{
    let n = groups.len();
    let mut j: usize = 0;
    while j < n
        invariant
            n == groups.len(),
            j <= n,
            forall|t: int| 0 <= t < j ==> (#[trigger] groups.deep_view()[t]).0 != key@,
        decreases n - j,
    {
        proof {
            assert(groups.deep_view()[j as int].0 == groups@[j as int].0@);
        }
        if groups[j].0.eq(key) {
            return Some(j);
        }
        j = j + 1;
    }
    None
}

/// Groups the ordered input pairs by key: every value is retained under
/// its key in input order, duplicates included, and the keys keep
/// first-seen order.  This never fails.
pub fn aggregate(pairs: &Vec<(String, String)>) -> (r: AggregatedValues)
    ensures
        forall|k: Seq<char>| #[trigger] lookup(r@, k) == values_for(pairs.deep_view(), k),
        group_keys(r@) == first_seen_keys(pairs.deep_view()),
{
    let ghost pv = pairs.deep_view();
    let mut out = AggregatedValues::new();
    let mut i: usize = 0;
    proof {
        assert(pv.take(0) =~= Seq::<(Seq<char>, Seq<char>)>::empty());
        assert(group_keys(out@) =~= Seq::<Seq<char>>::empty());
    }
    while i < pairs.len()
        invariant
            i <= pairs.len(),
            pv == pairs.deep_view(),
            forall|k: Seq<char>| #[trigger] lookup(out@, k) == values_for(pv.take(i as int), k),
            group_keys(out@) == first_seen_keys(pv.take(i as int)),
        decreases pairs.len() - i,
    {
        let key: &String = &pairs[i].0;
        let value: &String = &pairs[i].1;
        let ghost g = out@;
        proof {
            assert(pv.take(i + 1).drop_last() =~= pv.take(i as int));
            assert(pv.take(i + 1).last() == pv[i as int]);
            assert(pv[i as int] == (key@, value@));
        }
        match find_group(&out.groups, key) {
            Some(hit) => {
                let mut entry = out.groups.remove(hit);
                entry.1.push(value.clone());
                let ghost ev = (entry.0@, entry.1.deep_view());
                out.groups.insert(hit, entry);
                proof {
                    let w = g[hit as int].1.push(value@);
                    assert(ev.0 == key@);
                    assert(ev.1 =~= w);
                    assert(out@ =~= g.update(hit as int, (key@, w)));
                    lemma_lookup_update(g, hit as int, w, key@);
                    assert(lookup(g, key@) == g[hit as int].1) by {
                        lemma_lookup_skip(g, key@, hit as int);
                        assert(g.skip(hit as int).first() == g[hit as int]);
                    }
                    assert(group_keys(out@) =~= group_keys(g));
                    assert(group_keys(g).contains(key@)) by {
                        assert(group_keys(g)[hit as int] == g[hit as int].0);
                    }
                    assert(first_seen_keys(pv.take(i + 1)) == first_seen_keys(pv.take(i as int)));
                    assert forall|k: Seq<char>| #[trigger] lookup(out@, k) == values_for(
                        pv.take(i + 1),
                        k,
                    ) by {
                        assert(lookup(g.update(hit as int, (key@, w)), k) == (if k == key@ {
                            w
                        } else {
                            lookup(g, k)
                        }));
                    }
                }
            },
            None => {
                let mut vs: Vec<String> = Vec::new();
                vs.push(value.clone());
                let ghost vsv = vs.deep_view();
                out.groups.push((key.clone(), vs));
                proof {
                    assert(forall|t: int| 0 <= t < g.len() ==> (#[trigger] g[t]).0 != key@);
                    assert(!group_keys(g).contains(key@)) by {
                        if group_keys(g).contains(key@) {
                            let t = choose|t: int|
                                0 <= t < group_keys(g).len() && group_keys(g)[t] == key@;
                            assert(group_keys(g)[t] == g[t].0);
                        }
                    }
                    assert(lookup(g, key@) == Seq::<Seq<char>>::empty()) by {
                        lemma_lookup_skip(g, key@, g.len() as int);
                        assert(g.skip(g.len() as int) =~= Seq::<(Seq<char>, Seq<Seq<char>>)>::empty());
                    }
                    assert(vsv =~= Seq::<Seq<char>>::empty().push(value@));
                    assert(out@ =~= g.push((key@, vsv)));
                    lemma_lookup_push(g, key@, vsv);
                    assert(group_keys(out@) =~= group_keys(g).push(key@));
                    assert(first_seen_keys(pv.take(i + 1)) == first_seen_keys(
                        pv.take(i as int),
                    ).push(key@));
                    assert forall|k: Seq<char>| #[trigger] lookup(out@, k) == values_for(
                        pv.take(i + 1),
                        k,
                    ) by {
                        assert(lookup(g.push((key@, vsv)), k) == (if k == key@ {
                            vsv
                        } else {
                            lookup(g, k)
                        }));
                        if k == key@ {
                            assert(lookup(g, k) == values_for(pv.take(i as int), k));
                        }
                    }
                }
            },
        }
        i = i + 1;
    }
    proof {
        assert(pv.take(pairs.len() as int) =~= pv);
    }
    out
}

} // verus!
