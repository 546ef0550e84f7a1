//! The answers to a batch of JSON-RPC calls.
use vstd::prelude::*;

verus! {

/// One answer of a batch: whether it carries an error object, and its result.
pub struct BatchEntry<T> {
    pub failed: bool,
    pub result: T,
}

/// Whether none of the answers carries an error.
pub open spec fn all_succeeded<T>(entries: Seq<BatchEntry<T>>) -> bool {
    forall|i: int| 0 <= i < entries.len() ==> !(#[trigger] entries[i]).failed
}

/// The results of a batch, in the order of its calls; or, when an answer
/// carries an error, the position of the first such answer.
pub fn collect_batch_results<T>(entries: Vec<BatchEntry<T>>) -> (results: Result<Vec<T>, usize>)
    ensures
        match results {
            Ok(values) => {
                &&& all_succeeded(entries@)
                &&& values.len() == entries.len()
                &&& forall|i: int| 0 <= i < values.len() ==> values[i] == (#[trigger] entries@[i]).result
            },
            Err(first) => {
                &&& first < entries.len()
                &&& entries@[first as int].failed
                &&& forall|i: int| 0 <= i < first ==> !(#[trigger] entries@[i]).failed
            },
        },
        all_succeeded(entries@) ==> results is Ok,
{
    let ghost original = entries@;
    let mut i: usize = 0;
    while i < entries.len()
        invariant
            i <= entries.len(),
            entries@ == original,
            forall|k: int| 0 <= k < i ==> !(#[trigger] original[k]).failed,
        decreases entries.len() - i,
    {
        if entries[i].failed {
            return Err(i);
        }
        i = i + 1;
    }
    let mut rest = entries;
    let mut values: Vec<T> = Vec::new();
    while rest.len() > 0
        invariant
            values.len() + rest.len() == original.len(),
            rest@ == original.skip(values.len() as int),
            forall|k: int| 0 <= k < values.len() ==> values[k] == (#[trigger] original[k]).result,
        decreases rest.len(),
    {
        let entry = rest.remove(0);
        values.push(entry.result);
        assert(rest@ =~= original.skip(values.len() as int));
    }
    Ok(values)
}

} // verus!
