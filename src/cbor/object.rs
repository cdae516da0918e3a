//! Maps with keys in the canonical order, and the canonical sort.
use vstd::prelude::*;
use vstd::seq_lib::{to_multiset_remove, to_multiset_insert};
use std::cmp::Ordering;

use super::model::{Model, canonical_cmp, encodable, keys_sorted, first_not_below, insert_entry};
use super::value::{Value, Object, entry_models};
use super::order::{ordering_sign, lemma_canonical_cmp_antisymmetric, lemma_canonical_cmp_transitive};

verus! {

/// Every key of `es` can be encoded, so that keys can be compared.
pub open spec fn keys_encodable(es: Seq<(Value, Value)>) -> bool {
    forall|i: int| 0 <= i < es.len() ==> #[trigger] encodable(es[i].0.model())
}

/// `vs` is in canonical order, each value no greater than the next.
pub open spec fn sorted_canonically(vs: Seq<Value>) -> bool {
    forall|i: int|
        0 <= i < vs.len() - 1 ==> canonical_cmp(#[trigger] vs[i].model(), vs[i + 1].model()) <= 0
}

impl Object {
    /// The object's invariant: keys that can be compared, strictly increasing.
    pub open spec fn well_keyed(&self) -> bool {
        keys_encodable(self.entries@) && keys_sorted(entry_models(self.entries@))
    }

    /// Inserts `value` under `key`. Where a key equal to `key` in the canonical
    /// order is present, its value is replaced and returned, and the key held
    /// stays; otherwise the entry is added where the order puts it.
    pub fn insert(&mut self, key: Value, value: Value) -> (r: Option<Value>)
        requires
            old(self).well_keyed(),
            encodable(key.model()),
        ensures
            final(self).well_keyed(),
            entry_models(final(self).entries@) == insert_entry(
                entry_models(old(self).entries@),
                key.model(),
                value.model(),
            ),
            r is Some <==> ({
                let p = first_not_below(entry_models(old(self).entries@), key.model(), 0);
                p < old(self).entries@.len() && canonical_cmp(
                    old(self).entries@[p].0.model(),
                    key.model(),
                ) == 0
            }),
            r matches Some(prev) ==> exists|p: int|
                0 <= p < old(self).entries@.len() && canonical_cmp(
                    #[trigger] old(self).entries@[p].0.model(),
                    key.model(),
                ) == 0 && prev == old(self).entries@[p].1 && final(self).entries@ == old(
                    self,
                ).entries@.update(p, (old(self).entries@[p].0, value)),
            r is None ==> (forall|i: int|
                0 <= i < old(self).entries@.len() ==> canonical_cmp(
                    #[trigger] old(self).entries@[i].0.model(),
                    key.model(),
                ) != 0) && exists|p: int|
                0 <= p <= old(self).entries@.len() && final(self).entries@ == old(
                    self,
                ).entries@.insert(p, (key, value)),
    {
        let ghost es = self.entries@;
        let mut p: usize = 0;
        loop
            invariant
                self.entries@ == es,
                old(self).well_keyed(),
                self.well_keyed(),
                encodable(key.model()),
                p <= es.len(),
                forall|j: int| 0 <= j < p ==> canonical_cmp(#[trigger] es[j].0.model(), key.model()) < 0,
                first_not_below(entry_models(es), key.model(), 0) == first_not_below(
                    entry_models(es),
                    key.model(),
                    p as int,
                ),
            ensures
                self.entries@ == es,
                p <= es.len(),
                forall|j: int| 0 <= j < p ==> canonical_cmp(#[trigger] es[j].0.model(), key.model()) < 0,
                p < es.len() ==> canonical_cmp(es[p as int].0.model(), key.model()) >= 0,
                first_not_below(entry_models(es), key.model(), 0) == p,
            decreases es.len() - p,
        {
            if p >= self.entries.len() {
                break;
            }
            if !matches!(self.entries[p].0.canonical_cmp(&key), Ordering::Less) {
                break;
            }
            assert(entry_models(es)[p as int].0 == es[p as int].0.model());
            p = p + 1;
        }
        let ghost em = entry_models(es);
        if p < self.entries.len() && matches!(self.entries[p].0.canonical_cmp(&key), Ordering::Equal) {
            let (k0, v0) = self.entries.remove(p);
            self.entries.insert(p, (k0, value));
            proof {
                assert(self.entries@ =~= es.update(p as int, (es[p as int].0, value)));
                assert(em[p as int].0 == es[p as int].0.model());
                assert(entry_models(self.entries@) =~= insert_entry(em, key.model(), value.model()));
                let nm = entry_models(self.entries@);
                assert forall|i: int, j: int| 0 <= i < j < nm.len() implies canonical_cmp(
                    #[trigger] nm[i].0,
                    #[trigger] nm[j].0,
                ) < 0 by {
                    assert(nm[i].0 == em[i].0 && nm[j].0 == em[j].0);
                }
                assert forall|i: int| 0 <= i < self.entries@.len() implies #[trigger] encodable(
                    self.entries@[i].0.model(),
                ) by {
                    assert(self.entries@[i].0 == es[i].0);
                }
            }
            Some(v0)
        } else {
            proof {
                assert forall|i: int| 0 <= i < es.len() implies canonical_cmp(
                    #[trigger] es[i].0.model(),
                    key.model(),
                ) != 0 by {
                    if i >= p {
                        // The first key not below `key` is above it, and so are all later.
                        lemma_canonical_cmp_antisymmetric(es[p as int].0.model(), key.model());
                        if i > p {
                            assert(em[p as int].0 == es[p as int].0.model());
                            assert(em[i].0 == es[i].0.model());
                            assert(canonical_cmp(em[p as int].0, em[i].0) < 0);
                            lemma_canonical_cmp_antisymmetric(key.model(), es[p as int].0.model());
                            lemma_canonical_cmp_transitive(
                                key.model(),
                                es[p as int].0.model(),
                                es[i].0.model(),
                            );
                            lemma_canonical_cmp_antisymmetric(es[i].0.model(), key.model());
                        }
                    }
                }
            }
            self.entries.insert(p, (key, value));
            proof {
                let ns = self.entries@;
                let nm = entry_models(ns);
                assert(ns =~= es.insert(p as int, (key, value)));
                if p < es.len() {
                    assert(em[p as int].0 == es[p as int].0.model());
                }
                assert(nm =~= insert_entry(em, key.model(), value.model()));
                assert forall|i: int, j: int| 0 <= i < j < nm.len() implies canonical_cmp(
                    #[trigger] nm[i].0,
                    #[trigger] nm[j].0,
                ) < 0 by {
                    let ii = if i < p { i } else { i - 1 };
                    let jj = if j <= p { j } else { j - 1 };
                    if i == p as int {
                        // key < es[p] <= es[jj]
                        lemma_canonical_cmp_antisymmetric(es[p as int].0.model(), key.model());
                        if jj > p {
                            assert(canonical_cmp(em[p as int].0, em[jj].0) < 0);
                            lemma_canonical_cmp_transitive(
                                key.model(),
                                es[p as int].0.model(),
                                es[jj].0.model(),
                            );
                        }
                    } else if j == p as int {
                        assert(canonical_cmp(es[ii].0.model(), key.model()) < 0);
                    } else {
                        assert(canonical_cmp(em[ii].0, em[jj].0) < 0);
                    }
                }
                assert forall|i: int| 0 <= i < ns.len() implies #[trigger] encodable(
                    ns[i].0.model(),
                ) by {
                    if i != p {
                        let ii = if i < p { i } else { i - 1 };
                        assert(ns[i] == es[ii]);
                    }
                }
            }
            None
        }
    }

    /// The value held under a key equal to `key` in the canonical order.
    pub fn get(&self, key: &Value) -> (r: Option<&Value>)
        requires
            self.well_keyed(),
            encodable(key.model()),
        ensures
            r matches Some(v) ==> exists|p: int|
                0 <= p < self.entries@.len() && canonical_cmp(
                    #[trigger] self.entries@[p].0.model(),
                    key.model(),
                ) == 0 && *v == self.entries@[p].1,
            r is None ==> forall|i: int|
                0 <= i < self.entries@.len() ==> canonical_cmp(
                    #[trigger] self.entries@[i].0.model(),
                    key.model(),
                ) != 0,
    {
        let mut i: usize = 0;
        while i < self.entries.len()
            invariant
                self.well_keyed(),
                encodable(key.model()),
                i <= self.entries@.len(),
                forall|j: int|
                    0 <= j < i ==> canonical_cmp(
                        #[trigger] self.entries@[j].0.model(),
                        key.model(),
                    ) != 0,
            decreases self.entries@.len() - i,
        {
            if matches!(self.entries[i].0.canonical_cmp(key), Ordering::Equal) {
                return Some(&self.entries[i].1);
            }
            i = i + 1;
        }
        None
    }
}

/// Every one of `vs` can be encoded, so that they can be compared.
pub open spec fn all_encodable(vs: Seq<Value>) -> bool {
    forall|i: int| 0 <= i < vs.len() ==> #[trigger] encodable(vs[i].model())
}

proof fn lemma_move_multiset(before: Seq<Value>, i: int, j: int, x: Value)
    requires
        0 <= i < before.len(),
        0 <= j <= i,
        x == before[i],
    ensures
        before.remove(i).insert(j, x).to_multiset() == before.to_multiset(),
{
    broadcast use vstd::multiset::group_multiset_axioms;
    to_multiset_remove(before, i);
    to_multiset_insert(before.remove(i), j, x);
    vstd::seq_lib::to_multiset_contains(before, x);
    assert(before.contains(x)) by {
        assert(before[i] == x);
    }
    assert(before.remove(i).insert(j, x).to_multiset() =~= before.to_multiset());
}

proof fn lemma_move_encodable(before: Seq<Value>, i: int, j: int, x: Value)
    requires
        0 <= j <= i < before.len(),
        x == before[i],
        all_encodable(before),
    ensures
        all_encodable(before.remove(i).insert(j, x)),
{
    let removed = before.remove(i);
    let after = removed.insert(j, x);
    assert forall|k: int| 0 <= k < after.len() implies #[trigger] encodable(after[k].model()) by {
        if k < j {
            assert(after[k] == before[k]);
        } else if k > j {
            assert(after[k] == removed[k - 1]);
            if k - 1 < i {
                assert(removed[k - 1] == before[k - 1]);
            } else {
                assert(removed[k - 1] == before[k]);
            }
        }
    }
}

#[verifier::rlimit(30)]
proof fn lemma_insertion_step(before: Seq<Value>, i: int, j: int, x: Value)
    requires
        0 <= j <= i < before.len(),
        x == before[i],
        sorted_canonically(before.subrange(0, i)),
        forall|k: int|
            j <= k < i ==> canonical_cmp(#[trigger] before.remove(i)[k].model(), x.model()) > 0,
        j > 0 ==> canonical_cmp(before.remove(i)[j - 1].model(), x.model()) <= 0,
    ensures
        sorted_canonically(before.remove(i).insert(j, x).subrange(0, i + 1)),
        sorted_canonically(before.subrange(0, i + 1)) ==> before.remove(i).insert(j, x)
            == before,
{
    lemma_insertion_sorted(before, i, j, x);
    lemma_insertion_keeps_sorted(before, i, j, x);
}

proof fn lemma_insertion_sorted(before: Seq<Value>, i: int, j: int, x: Value)
    requires
        0 <= j <= i < before.len(),
        x == before[i],
        sorted_canonically(before.subrange(0, i)),
        forall|k: int|
            j <= k < i ==> canonical_cmp(#[trigger] before.remove(i)[k].model(), x.model()) > 0,
        j > 0 ==> canonical_cmp(before.remove(i)[j - 1].model(), x.model()) <= 0,
    ensures
        sorted_canonically(before.remove(i).insert(j, x).subrange(0, i + 1)),
{
    let removed = before.remove(i);
    let after = removed.insert(j, x);
    let now = after.subrange(0, i + 1);
    let pre = before.subrange(0, i);
    assert forall|k: int| 0 <= k < now.len() - 1 implies canonical_cmp(
        #[trigger] now[k].model(),
        now[k + 1].model(),
    ) <= 0 by {
        if k + 1 < j {
            assert(now[k] == pre[k] && now[k + 1] == pre[k + 1]);
        } else if k + 1 == j {
            assert(now[k + 1] == x && now[k] == removed[j - 1]);
        } else if k == j {
            assert(now[k] == x && now[k + 1] == removed[j]);
            lemma_canonical_cmp_antisymmetric(removed[j].model(), x.model());
        } else {
            assert(now[k] == pre[k - 1] && now[k + 1] == pre[k]);
        }
    }
}

proof fn lemma_insertion_keeps_sorted(before: Seq<Value>, i: int, j: int, x: Value)
    requires
        0 <= j <= i < before.len(),
        x == before[i],
        forall|k: int|
            j <= k < i ==> canonical_cmp(#[trigger] before.remove(i)[k].model(), x.model()) > 0,
    ensures
        sorted_canonically(before.subrange(0, i + 1)) ==> before.remove(i).insert(j, x)
            == before,
{
    let removed = before.remove(i);
    if sorted_canonically(before.subrange(0, i + 1)) {
        if j < i {
            let upto = before.subrange(0, i + 1);
            assert(upto[i - 1] == removed[i - 1]);
            assert(upto[i] == x);
            assert(canonical_cmp(upto[i - 1].model(), upto[i].model()) <= 0);
            assert(canonical_cmp(removed[i - 1].model(), x.model()) > 0);
        }
        assert(removed.insert(j, x) =~= before);
    }
}

/// Sorts `values` into the canonical order. The sort is stable, so that a
/// sequence already in order is left exactly as it is: sorting twice gives
/// what sorting once gave.
pub fn sort_canonical(values: &mut Vec<Value>)
    requires
        all_encodable(old(values)@),
    ensures
        sorted_canonically(final(values)@),
        all_encodable(final(values)@),
        final(values)@.to_multiset() == old(values)@.to_multiset(),
        sorted_canonically(old(values)@) ==> final(values)@ == old(values)@,
{
    broadcast use vstd::multiset::group_multiset_axioms;
    let ghost start = values@;
    let n = values.len();
    let mut i: usize = 1;
    if n == 0 {
        return;
    }
    while i < n
        invariant
            1 <= i <= n,
            values@.len() == n,
            all_encodable(values@),
            values@.to_multiset() == start.to_multiset(),
            sorted_canonically(values@.subrange(0, i as int)),
            sorted_canonically(start) ==> values@ == start,
        decreases n - i,
    {
        let ghost before = values@;
        let x = values.remove(i);
        proof {
            to_multiset_remove(before, i as int);
        }
        let mut j: usize = i;
        loop
            invariant
                0 <= j <= i < n,
                before.len() == n,
                values@ == before.remove(i as int),
                x == before[i as int],
                encodable(x.model()),
                all_encodable(values@),
                forall|k: int|
                    j <= k < i ==> canonical_cmp(#[trigger] values@[k].model(), x.model()) > 0,
            ensures
                0 <= j <= i,
                values@ == before.remove(i as int),
                forall|k: int|
                    j <= k < i ==> canonical_cmp(#[trigger] values@[k].model(), x.model()) > 0,
                j > 0 ==> canonical_cmp(values@[j - 1].model(), x.model()) <= 0,
            decreases j,
        {
            if j == 0 {
                break;
            }
            if !matches!(values[j - 1].canonical_cmp(&x), Ordering::Greater) {
                break;
            }
            j = j - 1;
        }
        values.insert(j, x);
        proof {
            lemma_insertion_step(before, i as int, j as int, x);
            lemma_move_encodable(before, i as int, j as int, x);
            lemma_move_multiset(before, i as int, j as int, x);
            if sorted_canonically(start) {
                assert(values@ == before);
            }
        }
        i = i + 1;
    }
    assert(values@.subrange(0, n as int) =~= values@);
}

} // verus!
