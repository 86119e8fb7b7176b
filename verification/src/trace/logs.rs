//! The delegation requests of an execution, filed by their type.
use std::collections::HashMap;
use vstd::prelude::*;

verus! {

/// The batches of requests that were filed under a type; of one without entry there are none.
pub open spec fn batches<R>(logs: Map<u16, Vec<Vec<R>>>, kind: u16) -> Seq<Vec<R>> {
    if logs.contains_key(kind) {
        logs[kind]@
    } else {
        seq![]
    }
}

/// The open batch of a type, if it holds some request.
pub open spec fn open_of<R>(open_batches: Map<u16, Vec<R>>, kind: u16) -> Seq<Vec<R>> {
    if open_batches.contains_key(kind) && open_batches[kind]@.len() != 0 {
        seq![open_batches[kind]]
    } else {
        seq![]
    }
}

/// Files a batch of requests under their type.
pub fn file_batch<R>(logs: &mut HashMap<u16, Vec<Vec<R>>>, kind: u16, batch: Vec<R>)
    ensures
        final(logs)@.dom() == old(logs)@.dom().insert(kind),
        forall|k: u16| #[trigger]
            batches(final(logs)@, k) == if k == kind {
                batches(old(logs)@, k).push(batch)
            } else {
                batches(old(logs)@, k)
            },
{
    broadcast use vstd::std_specs::hash::group_hash_axioms;

    let ghost before = logs@;
    let mut filed: Vec<Vec<R>> = match logs.remove(&kind) {
        Some(filed) => filed,
        None => Vec::new(),
    };
    assert(filed@ =~= batches(before, kind));
    filed.push(batch);
    logs.insert(kind, filed);
    assert(logs@.dom() =~= before.dom().insert(kind));
}

/// The keys of a map, in no particular order.
fn keys_of<R>(map: &HashMap<u16, Vec<R>>) -> (r: Vec<u16>)
    ensures
        r@.no_duplicates(),
        forall|k: u16| #[trigger] r@.contains(k) <==> map@.contains_key(k),
{
    broadcast use vstd::std_specs::hash::group_hash_axioms;

    let mut r: Vec<u16> = Vec::new();
    let ghost keys = vstd::std_specs::iter::IteratorSpec::remaining(&map.keys());
    let ghost plain = keys.unref();
    for key in it: map.keys()
        invariant
            it.seq() == keys,
            plain == keys.unref(),
            r@ == plain.take(it.index() as int),
    {
        r.push(*key);
        assert(r@ =~= plain.take(it.index() + 1));
    }
    assert(r@ =~= plain);
    assert forall|k: u16| #[trigger] r@.contains(k) <==> map@.contains_key(k) by {
        assert(plain.to_set().contains(k) <==> plain.contains(k));
    }
    r
}

/// Files the open batches that hold some request.
pub fn file_open<R>(logs: &mut HashMap<u16, Vec<Vec<R>>>, open_batches: HashMap<u16, Vec<R>>)
    ensures
        forall|k: u16| #[trigger]
            final(logs)@.contains_key(k) <==> old(logs)@.contains_key(k) || open_of(
                open_batches@,
                k,
            ).len() > 0,
        forall|k: u16| #[trigger]
            batches(final(logs)@, k) == batches(old(logs)@, k) + open_of(open_batches@, k),
{
    broadcast use vstd::std_specs::hash::group_hash_axioms;

    let ghost before = logs@;
    let ghost all = open_batches@;
    let keys = keys_of(&open_batches);
    let mut rest = open_batches;
    assert forall|j: int| 0 <= j < keys@.len() implies all.contains_key(#[trigger] keys@[j]) by {
        assert(keys@.contains(keys@[j]));
    }
    let mut i: usize = 0;
    while i < keys.len()
        invariant
            before == old(logs)@,
            all == open_batches@,
            i <= keys@.len(),
            keys@.no_duplicates(),
            forall|k: u16| #[trigger] keys@.contains(k) <==> all.contains_key(k),
            forall|j: int|
                i <= j < keys@.len() ==> rest@.contains_key(#[trigger] keys@[j])
                    && rest@[keys@[j]] == all[keys@[j]],
            forall|k: u16| #[trigger]
                logs@.contains_key(k) <==> before.contains_key(k) || (keys@.take(
                    i as int,
                ).contains(k) && open_of(all, k).len() > 0),
            forall|k: u16| #[trigger]
                batches(logs@, k) == if keys@.take(i as int).contains(k) {
                    batches(before, k) + open_of(all, k)
                } else {
                    batches(before, k)
                },
        decreases keys@.len() - i,
    {
        broadcast use vstd::std_specs::hash::group_hash_axioms;

        let ghost so_far = logs@;
        let ghost done = keys@.take(i as int);
        let kind: u16 = keys[i];
        assert(keys@[i as int] == kind && keys@.contains(kind));
        match rest.remove(&kind) {
            Some(batch) => {
                assert(batch == all[kind]);
                if batch.len() != 0 {
                    file_batch(logs, kind, batch);
                }
            },
            None => {},
        }
        proof {
            let more = keys@.take(i + 1);
            assert(more =~= done.push(kind));
            assert(!done.contains(kind)) by {
                if done.contains(kind) {
                    let j = choose|j: int| 0 <= j < done.len() && done[j] == kind;
                    assert(keys@[j] == keys@[i as int]);
                }
            }
            assert forall|k: u16| more.contains(k) <==> done.contains(k) || k == kind by {
                if done.contains(k) {
                    let j = choose|j: int| 0 <= j < done.len() && done[j] == k;
                    assert(more[j] == k);
                }
                assert(more[i as int] == kind);
                if more.contains(k) && k != kind {
                    let j = choose|j: int| 0 <= j < more.len() && more[j] == k;
                    assert(done[j] == k);
                }
            }
            assert forall|k: u16| #[trigger] batches(logs@, k) == if more.contains(k) {
                batches(before, k) + open_of(all, k)
            } else {
                batches(before, k)
            } by {
                assert(batches(so_far, k) == if done.contains(k) {
                    batches(before, k) + open_of(all, k)
                } else {
                    batches(before, k)
                });
                if k == kind {
                    assert(batches(logs@, k) =~= batches(before, k) + open_of(all, k));
                }
            }
        }
        i = i + 1;
    }
    assert(keys@.take(i as int) =~= keys@);
    assert forall|k: u16| #[trigger] batches(logs@, k) == batches(before, k) + open_of(all, k) by {
        if !keys@.contains(k) {
            assert(batches(before, k) + open_of(all, k) =~= batches(before, k));
        }
    }
}

} // verus!
