//! Dropping deeply nested values without deep recursion.
use vstd::prelude::*;

use super::value::{JsonModel, Value, Array, Object, models, member_models, lemma_container_model};

verus! {

/// The number of values in `m`, itself included.
pub open spec fn size(m: JsonModel) -> nat
    decreases m,
{
    match m {
        JsonModel::Array(items) => 1 + size_items(items),
        JsonModel::Object(entries) => 1 + size_entries(entries),
        _ => 1,
    }
}

/// The number of values in `items`.
pub open spec fn size_items(items: Seq<JsonModel>) -> nat
    decreases items,
{
    if items.len() == 0 {
        0
    } else {
        size(items.last()) + size_items(items.drop_last())
    }
}

/// The number of values in the members `entries`.
pub open spec fn size_entries(entries: Seq<(Seq<char>, JsonModel)>) -> nat
    decreases entries,
{
    if entries.len() == 0 {
        0
    } else {
        size(entries.last().1) + size_entries(entries.drop_last())
    }
}

/// The number of values held by a work list.
spec fn work_size(work: Seq<Value>) -> nat {
    size_items(models(work))
}

proof fn lemma_work_push(work: Seq<Value>, v: Value)
    ensures
        work_size(work.push(v)) == size(v.model()) + work_size(work),
{
    assert(models(work.push(v)).drop_last() =~= models(work));
}

proof fn lemma_work_pop(work: Seq<Value>)
    requires
        work.len() > 0,
    ensures
        work_size(work) == size(work.last().model()) + work_size(work.drop_last()),
{
    assert(models(work).drop_last() =~= models(work.drop_last()));
}

proof fn lemma_work_append(work: Seq<Value>, items: Seq<Value>)
    ensures
        work_size(work + items) == work_size(work) + size_items(models(items)),
    decreases items.len(),
{
    if items.len() == 0 {
        assert(work + items =~= work);
    } else {
        let front = items.drop_last();
        lemma_work_append(work, front);
        assert(models(work + items).drop_last() =~= models(work + front));
        assert(models(items).drop_last() =~= models(front));
    }
}

/// Drops `value` by moving the children of each container onto a work list,
/// so that arbitrarily deep values never nest calls.
pub fn safely(value: Value) {
    let mut work: Vec<Value> = Vec::new();
    proof {
        lemma_work_push(work@, value);
    }
    work.push(value);
    while work.len() > 0
        decreases work_size(work@),
    {
        let ghost before = work@;
        proof {
            lemma_work_pop(before);
        }
        let v = work.pop().unwrap();
        proof {
            assert(before.drop_last() =~= work@);
            lemma_container_model(&v);
        }
        match v {
            Value::Array(Array(mut items)) => {
                proof {
                    lemma_work_append(work@, items@);
                }
                work.append(&mut items);
            },
            Value::Object(Object { mut entries }) => {
                let ghost bound = work_size(work@) + size_entries(member_models(entries@));
                while entries.len() > 0
                    invariant
                        work_size(work@) + size_entries(member_models(entries@)) == bound,
                    decreases entries@.len(),
                {
                    let ghost es = entries@;
                    let (k, val) = entries.pop().unwrap();
                    proof {
                        assert(member_models(es).drop_last() =~= member_models(entries@));
                        assert(member_models(es).last() == (k@, val.model()));
                        lemma_work_push(work@, val);
                    }
                    work.push(val);
                }
            },
            _ => {},
        }
    }
}

} // verus!
