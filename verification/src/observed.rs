//! The highest stable-id number a project's files mention: after a hand edit
//! is absorbed, the id counter continues past it, so no id an editor wrote
//! is ever issued again.

use vstd::prelude::*;

use crate::ids::{StableId, parse_stable_id};
use crate::ir::RelPath;
use crate::json::{Json, JsonView, view_items, view_members};

verus! {

pub open spec fn larger(a: u64, b: u64) -> u64 {
    if a >= b { a } else { b }
}

/// The larger of `m` and every stable-id number among the strings of `v`,
/// read in document order.
pub open spec fn highest_id(v: JsonView, m: u64) -> u64
    decreases v,
{
    match v {
        JsonView::Str(s) => match parse_stable_id(s) {
            Some(id) => larger(m, id.n),
            None => m,
        },
        JsonView::Array(items) => highest_in_items(items, m),
        JsonView::Object(ms) => highest_in_members(ms, m),
        _ => m,
    }
}

pub open spec fn highest_in_items(items: Seq<JsonView>, m: u64) -> u64
    decreases items,
{
    if items.len() == 0 {
        m
    } else {
        highest_id(items.last(), highest_in_items(items.drop_last(), m))
    }
}

pub open spec fn highest_in_members(ms: Seq<(Seq<char>, JsonView)>, m: u64) -> u64
    decreases ms,
{
    if ms.len() == 0 {
        m
    } else {
        highest_id(ms.last().1, highest_in_members(ms.drop_last(), m))
    }
}

/// The larger of `m` and every stable-id number `v` mentions.
pub fn highest_stable_id(v: &Json, m: u64) -> (res: u64)
    ensures
        res == highest_id(v@, m),
    decreases v,
{
    match v {
        Json::Str(s) => match StableId::try_from(s.clone()) {
            Ok(id) => if id.n >= m { id.n } else { m },
            Err(_) => m,
        },
        Json::Array(items) => {
            let mut acc = m;
            let mut i: usize = 0;
            assert(items@.take(0) =~= Seq::<Json>::empty());
            while i < items.len()
                invariant
                    i <= items@.len(),
                    *v == Json::Array(*items),
                    acc == highest_in_items(view_items(items@.take(i as int)), m),
                decreases items@.len() - i,
            {
                proof {
                    assert(decreases_to!(*v => v->Array_0));
                    assert(decreases_to!(*items => items@));
                    assert(decreases_to!(items@ => items@[i as int]));
                    assert(items@.take(i + 1).drop_last() =~= items@.take(i as int));
                    assert(items@.take(i + 1).last() == items@[i as int]);
                }
                acc = highest_stable_id(&items[i], acc);
                proof {
                    let t = items@.take(i + 1);
                    let vt = view_items(t);
                    assert(vt == view_items(t.drop_last()).push(t.last()@));
                    assert(vt.drop_last() =~= view_items(items@.take(i as int)));
                    assert(vt.last() == items@[i as int]@);
                }
                i = i + 1;
            }
            assert(items@.take(items@.len() as int) =~= items@);
            acc
        },
        Json::Object(members) => {
            let mut acc = m;
            let mut i: usize = 0;
            assert(members@.take(0) =~= Seq::<(String, Json)>::empty());
            while i < members.len()
                invariant
                    i <= members@.len(),
                    *v == Json::Object(*members),
                    acc == highest_in_members(view_members(members@.take(i as int)), m),
                decreases members@.len() - i,
            {
                proof {
                    assert(decreases_to!(*v => v->Object_0));
                    assert(decreases_to!(*members => members@));
                    assert(decreases_to!(members@ => members@[i as int]));
                    assert(decreases_to!(members@[i as int] => members@[i as int].1));
                    assert(members@.take(i + 1).drop_last() =~= members@.take(i as int));
                    assert(members@.take(i + 1).last() == members@[i as int]);
                }
                acc = highest_stable_id(&members[i].1, acc);
                proof {
                    let t = members@.take(i + 1);
                    let vt = view_members(t);
                    assert(vt == view_members(t.drop_last()).push((t.last().0@, t.last().1@)));
                    assert(vt.drop_last() =~= view_members(members@.take(i as int)));
                    assert(vt.last().1 == members@[i as int].1@);
                }
                i = i + 1;
            }
            assert(members@.take(members@.len() as int) =~= members@);
            acc
        },
        _ => m,
    }
}

/// The larger of `counter` and every stable-id number among the files'
/// strings, the files taken in order.
pub open spec fn highest_in_files(files: Seq<(RelPath, Json)>, counter: u64) -> u64
    decreases files.len(),
{
    if files.len() == 0 {
        counter
    } else {
        highest_id(files.last().1@, highest_in_files(files.drop_last(), counter))
    }
}

/// The id counter an absorbed project continues from: the recorded counter,
/// or the highest stable-id number its files mention if that is larger.
pub fn observed_stable_id_counter(files: &Vec<(RelPath, Json)>, counter: u64) -> (res: u64)
    ensures
        res == highest_in_files(files@, counter),
{
    let mut acc = counter;
    let mut i: usize = 0;
    while i < files.len()
        invariant
            i <= files@.len(),
            acc == highest_in_files(files@.take(i as int), counter),
        decreases files@.len() - i,
    {
        proof {
            assert(files@.take(i + 1).drop_last() =~= files@.take(i as int));
        }
        acc = highest_stable_id(&files[i].1, acc);
        i = i + 1;
    }
    assert(files@.take(files@.len() as int) =~= files@);
    acc
}

/// Reading a value never lowers the counter it starts from: the observed
/// counter is at least the recorded one.
pub proof fn law_observed_counter_never_decreases(v: JsonView, m: u64)
    ensures
        highest_id(v, m) >= m,
    decreases v,
{
    match v {
        JsonView::Array(items) => lemma_items_at_least(items, m),
        JsonView::Object(ms) => lemma_members_at_least(ms, m),
        _ => {},
    }
}

proof fn lemma_items_at_least(items: Seq<JsonView>, m: u64)
    ensures
        highest_in_items(items, m) >= m,
    decreases items,
{
    if items.len() > 0 {
        lemma_items_at_least(items.drop_last(), m);
        law_observed_counter_never_decreases(items.last(), highest_in_items(items.drop_last(), m));
    }
}

proof fn lemma_members_at_least(ms: Seq<(Seq<char>, JsonView)>, m: u64)
    ensures
        highest_in_members(ms, m) >= m,
    decreases ms,
{
    if ms.len() > 0 {
        lemma_members_at_least(ms.drop_last(), m);
        law_observed_counter_never_decreases(ms.last().1, highest_in_members(ms.drop_last(), m));
    }
}

} // verus!
