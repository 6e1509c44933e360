//! Laws that relate the array methods to one another, stated over the
//! models their contracts use.

use vstd::prelude::*;
use std::cmp::Ordering;
use crate::array::{proto_of, reversed, resolve_slot, resolved_index, resolved_values, slice_values, splice_removed_count, spliced};
use crate::realm::{find_prop, get_property_of, lemma_get_property_push, own_property, storage_of, well_formed, KeyModel, ObjectData};
use crate::sort::{
    basic_order, entry_order, has_equal_pair, has_flag, kind_of, lemma_entry_antisymmetric, lemma_entry_equal,
    lemma_entry_transitive, next_order, sort_outcome, sorted_by, ComparatorModel, UNIQUE_SORT,
};
use crate::storage::{present, slot_or_undefined};
use crate::value::{Number, ObjectId, Val};

verus! {

/// Reading a hole of an array whose prototype holds that index yields the
/// prototype's value: both when the slot is resolved by an array method and
/// when the index is read as a property of the array.
pub proof fn law_hole_reads_prototype(objects: Seq<ObjectData>, this: ObjectId, p: ObjectId, i: usize, v: Val)
    requires
        storage_of(objects, this) is Some,
        i < storage_of(objects, this)->Some_0.len(),
        storage_of(objects, this)->Some_0[i as int] is None,
        find_prop(objects[this as int].props@, KeyModel::Index(i)) is None,
        objects[this as int].proto == Some(p),
        p < objects.len(),
        own_property(objects[p as int], KeyModel::Index(i)) == Some(v),
    ensures
        resolve_slot(objects, this, i as int, None) == v,
        get_property_of(objects, this, KeyModel::Index(i)) == v,
{
    assert(p != this);
    assert(objects.len() >= 2);
    assert(own_property(objects[this as int], KeyModel::Index(i)) is None);
    reveal_with_fuel(crate::realm::lookup, 2);
}

/// Pushing a value and then popping yields that value and leaves the
/// storage as it was.
pub proof fn law_push_then_pop(st: Seq<Option<Val>>, v: Val)
    ensures
        (st + present(seq![v])).len() == st.len() + 1,
        (st + present(seq![v])).drop_last() == st,
        slot_or_undefined((st + present(seq![v])).last()) == v,
{
    assert((st + present(seq![v])).drop_last() =~= st);
}

/// The two slices of an array at any cut `k` put together are all of its
/// elements, holes resolved.
pub proof fn law_slice_halves(objects: Seq<ObjectData>, this: ObjectId, k: i64)
    requires
        storage_of(objects, this) is Some,
        0 <= k <= resolved_values(objects, this).len() <= i32::MAX,
    ensures
        slice_values(objects, this, Val::Number(Number::Int(0)), Val::Number(Number::Int(k))) + slice_values(
            objects,
            this,
            Val::Number(Number::Int(k)),
            Val::Number(Number::Int(resolved_values(objects, this).len() as i64)),
        ) == resolved_values(objects, this),
{
    let all = resolved_values(objects, this);
    let n = all.len();
    assert((k as i32) as int == k) by (bit_vector)
        requires
            0 <= k <= 0x7fff_ffff,
    ;
    let m = n as i64;
    assert((m as i32) as int == m) by (bit_vector)
        requires
            0 <= m <= 0x7fff_ffff,
    ;
    assert((0i64 as i32) == 0);
    assert(resolved_index(Val::Number(Number::Int(k)), n) == k);
    assert(resolved_index(Val::Number(Number::Int(m)), n) == n);
    assert(all.subrange(0, k as int) + all.subrange(k as int, n as int) =~= all);
}

/// Adding an object, as `slice` does with its result, leaves what the
/// receiver's elements read as: a second slice of the receiver sees the same
/// elements as the first.
pub proof fn law_slice_keeps_receiver(objects: Seq<ObjectData>, this: ObjectId, d: ObjectData)
    requires
        well_formed(objects),
        storage_of(objects, this) is Some,
    ensures
        resolved_values(objects.push(d), this) == resolved_values(objects, this),
{
    let o2 = objects.push(d);
    assert(o2[this as int] == objects[this as int]);
    assert(storage_of(o2, this) == storage_of(objects, this));
    assert(proto_of(o2, this) == proto_of(objects, this));
    let st = storage_of(objects, this)->Some_0;
    assert forall|i: int| 0 <= i < st.len() implies #[trigger] resolve_slot(o2, this, i, st[i]) == resolve_slot(
        objects,
        this,
        i,
        st[i],
    ) by {
        if let Some(p) = proto_of(objects, this) {
            assert(objects[this as int].proto == Some(p));
            lemma_get_property_push(objects, d, p, KeyModel::Index(i as usize));
        }
    }
    assert(resolved_values(o2, this) =~= resolved_values(objects, this));
}

/// `splice` removes the delete count clamped to what lies after the start,
/// and the array's length changes by the items inserted less those removed.
pub proof fn law_splice_lengths(all: Seq<Val>, start: nat, count: int, items: Seq<Val>)
    requires
        start <= all.len(),
    ensures
        splice_removed_count(count, start, all.len()) == if count < 0 {
            0
        } else if count > all.len() - start {
            all.len() - start
        } else {
            count
        },
        spliced(all, start, splice_removed_count(count, start, all.len()), items).len() == all.len()
            - splice_removed_count(count, start, all.len()) + items.len(),
{
}

/// A sort that asks for uniqueness declines, leaving the array as it was
/// and yielding 0, when two present values compare equal.
pub proof fn law_unique_sort_declines(
    before: Seq<ObjectData>,
    after: Seq<ObjectData>,
    proto: Option<ObjectId>,
    t: ObjectId,
    bits: u8,
    r: crate::value::Value,
    p: int,
    q: int,
)
    requires
        sort_outcome(before, after, proto, t, ComparatorModel::Basic(kind_of(bits)), bits, r),
        has_flag(bits, UNIQUE_SORT),
        0 <= p < q < resolved_values(before, t).len(),
        !(resolved_values(before, t)[p] is Undefined),
        !(resolved_values(before, t)[q] is Undefined),
        basic_order(kind_of(bits), resolved_values(before, t)[p], resolved_values(before, t)[q]) == Ordering::Equal,
    ensures
        after == before,
        r@ == Val::Number(Number::Int(0)),
{
    reveal(entry_order);
    let all = resolved_values(before, t);
    let d = has_flag(bits, crate::sort::DESCENDING);
    assert(entry_order(before, ComparatorModel::Basic(kind_of(bits)), d, all[p], all[q]) == Ordering::Equal);
    assert(has_equal_pair(before, ComparatorModel::Basic(kind_of(bits)), d, all));
}

/// Reversing twice restores an array, holes in place.
pub proof fn law_reverse_twice(st: Seq<Option<Val>>)
    ensures
        reversed(reversed(st)) == st,
{
    assert(reversed(reversed(st)) =~= st);
}

/// A sorted result is ordered throughout, not only between neighbours: no
/// entry sorts after any later one.
pub proof fn law_sorted_throughout(
    objects: Seq<ObjectData>,
    cmp: ComparatorModel,
    d: bool,
    out: Seq<(usize, Val)>,
    p: int,
    q: int,
)
    requires
        !(cmp is Callback),
        sorted_by(objects, cmp, d, out),
        0 <= p < q < out.len(),
    ensures
        entry_order(objects, cmp, d, out[p].1, out[q].1) != Ordering::Greater,
    decreases q - p,
{
    assert(next_order(objects, cmp, d, out, q - 1) != Ordering::Greater);
    if q > p + 1 {
        law_sorted_throughout(objects, cmp, d, out, p, q - 1);
        let (a, b, c) = (out[p].1, out[q - 1].1, out[q].1);
        if entry_order(objects, cmp, d, a, b) == Ordering::Equal {
            lemma_entry_equal(objects, cmp, d, a, b, c);
        } else if entry_order(objects, cmp, d, b, c) == Ordering::Equal {
            lemma_entry_equal(objects, cmp, d, b, c, a);
            lemma_entry_antisymmetric(objects, cmp, d, a, b);
            lemma_entry_antisymmetric(objects, cmp, d, a, c);
        } else {
            lemma_entry_transitive(objects, cmp, d, a, b, c);
        }
    }
}

} // verus!
