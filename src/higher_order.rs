//! The methods of `Array` that run user code for each element. Elements are
//! fetched through [`ArrayIter`], one property read per step, so a callback
//! may change or replace the array between two steps.

use vstd::prelude::*;
use vstd::string::*;
use crate::array::{arg_or, build_array, built_array, is_array, joined, resolved_contents, resolved_values};
use crate::host::{
    all_but_last_ok, all_ok, args_view, calls_since, chained, extends, lemma_chained_push, lemma_log_grows, linked, CallRecord,
    Host, Invoke,
};
use crate::iter::{length_of, ArrayIter};
use crate::realm::{get_property_of, KeyModel, ObjectData, PropKey, Realm};
use crate::storage::{present, ArrayStorage};
use crate::value::{to_boolean, to_text, Error, Number, ObjectId, Val, Value};

verus! {

pub open spec fn is_nullish(v: Val) -> bool {
    v is Undefined || v is Null
}

/// The callback argument; null or undefined cannot be called.
fn callback_arg(args: &[Value]) -> (r: Result<Value, Error>)
    ensures
        is_nullish(arg_or(args@, 0, Val::Undefined)) ==> r is Err && r->Err_0 is TypeError,
        !is_nullish(arg_or(args@, 0, Val::Undefined)) ==> r is Ok && r->Ok_0@ == arg_or(args@, 0, Val::Undefined),
{
    if args.len() == 0 {
        return Err(Error::TypeError(String::from_str("Cannot convert null or undefined to an object")));
    }
    match &args[0] {
        Value::Undefined | Value::Null => Err(Error::TypeError(String::from_str("Cannot convert null or undefined to an object"))),
        v => Ok(v.duplicate()),
    }
}

/// The explicit receiver for the callback, where the second argument is an
/// object. Other values give no receiver: the realm has no wrapper objects
/// for numbers, strings or booleans.
pub open spec fn receiver_of(args: Seq<Value>) -> Option<ObjectId> {
    match arg_or(args, 1, Val::Null) {
        Val::Object(o) => Some(o),
        _ => None,
    }
}

fn receiver_arg(args: &[Value]) -> (r: Option<ObjectId>)
    ensures
        r == receiver_of(args@),
{
    if args.len() > 1 {
        match &args[1] {
            Value::Object(o) => Some(*o),
            _ => None,
        }
    } else {
        None
    }
}

/// The arguments a callback receives: the element, its index, the array.
fn callback_args(item: Value, i: u32, this: ObjectId) -> (r: [Value; 3])
    ensures
        args_view(r@) == seq![item@, Val::Number(Number::Int(i as i64)), Val::Object(this)],
{
    let r = [item, Value::Number(Number::Int(i as i64)), Value::Object(this)];
    assert(args_view(r@) =~= seq![item@, Val::Number(Number::Int(i as i64)), Val::Object(this)]);
    r
}

/// Call `k` of an element-wise method over `t`: the callback, on the
/// receiver, with the element at `k` as read just before the call, `k`, and
/// the array.
pub open spec fn element_call(c: CallRecord, callee: Val, receiver: Option<ObjectId>, t: ObjectId, k: int) -> bool {
    &&& c.callee == callee
    &&& c.receiver == receiver
    &&& c.args == seq![
        get_property_of(c.before, t, KeyModel::Index(k as usize)),
        Val::Number(Number::Int(k as i64)),
        Val::Object(t),
    ]
}

/// The calls of an element-wise method over `t`: call `k` on element `k`,
/// one after another from the objects `start` to the objects `end`, each
/// but the last successful.
pub open spec fn element_calls(
    calls: Seq<CallRecord>,
    callee: Val,
    receiver: Option<ObjectId>,
    t: ObjectId,
    start: Seq<ObjectData>,
    end: Seq<ObjectData>,
) -> bool {
    &&& forall|k: int| 0 <= k < calls.len() ==> element_call(#[trigger] calls[k], callee, receiver, t, k)
    &&& forall|k: int| 0 <= k < calls.len() - 1 ==> (#[trigger] calls[k]).result is Ok
    &&& forall|k: int| 0 <= k < calls.len() - 1 ==> #[trigger] linked(calls, k)
    &&& calls.len() == 0 ==> end == start
    &&& calls.len() > 0 ==> calls[0].before == start && calls.last().after == end
}

/// A call that returned a truthy value.
pub open spec fn truthy(c: CallRecord) -> bool {
    c.result is Ok && to_boolean(c.result->Ok_0@)
}

/// What each successful call returned.
pub open spec fn call_results(calls: Seq<CallRecord>) -> Seq<Val> {
    Seq::new(calls.len(), |k: int| calls[k].result->Ok_0@)
}

/// The elements handed to the calls that returned a truthy value, in order.
pub open spec fn kept_items(calls: Seq<CallRecord>) -> Seq<Val>
    decreases calls.len(),
{
    if calls.len() == 0 {
        Seq::empty()
    } else if truthy(calls.last()) {
        kept_items(calls.drop_last()).push(calls.last().args[0])
    } else {
        kept_items(calls.drop_last())
    }
}

proof fn lemma_element_calls_push(
    calls: Seq<CallRecord>,
    rec: CallRecord,
    callee: Val,
    receiver: Option<ObjectId>,
    t: ObjectId,
    start: Seq<ObjectData>,
    mid: Seq<ObjectData>,
)
    requires
        element_calls(calls, callee, receiver, t, start, mid),
        all_ok(calls),
        rec.before == mid,
        element_call(rec, callee, receiver, t, calls.len() as int),
    ensures
        element_calls(calls.push(rec), callee, receiver, t, start, rec.after),
{
    let c2 = calls.push(rec);
    assert forall|k: int| 0 <= k < c2.len() implies element_call(#[trigger] c2[k], callee, receiver, t, k) by {
        if k < calls.len() {
            assert(c2[k] == calls[k]);
        }
    }
    assert forall|k: int| 0 <= k < c2.len() - 1 implies (#[trigger] c2[k]).result is Ok by {
        assert(c2[k] == calls[k]);
    }
    assert forall|k: int| 0 <= k < c2.len() - 1 implies #[trigger] linked(c2, k) by {
        if k < calls.len() - 1 {
            assert(linked(calls, k));
        }
    }
}

/// What every element-wise method owes where it ran the callback: the calls
/// it made, and the first error, if any, returned with no later call.
pub open spec fn ran_elementwise<I>(
    old_host: Host<I>,
    new_host: Host<I>,
    old_objects: Seq<ObjectData>,
    end: Seq<ObjectData>,
    t: ObjectId,
    args: Seq<Value>,
    r: Result<Value, Error>,
) -> bool where I: Invoke {
    let calls = calls_since(old_host.calls(), new_host.calls());
    &&& extends(old_host.calls(), new_host.calls())
    &&& calls.len() <= length_of(old_objects, t)
    &&& element_calls(calls, arg_or(args, 0, Val::Undefined), receiver_of(args), t, old_objects, end)
    &&& r is Err ==> calls.len() > 0 && calls.last().result == r
    &&& r is Ok ==> all_ok(calls)
}

/// Implements `Array.forEach`: calls the callback on each element, in
/// index order, up to the length read at the start.
pub fn for_each<I: Invoke>(realm: &mut Realm, host: &mut Host<I>, this: Option<ObjectId>, args: &[Value]) -> (r: Result<Value, Error>)
    ensures
        this is None ==> final(realm)@ == old(realm)@ && final(host).calls() == old(host).calls() && r is Ok
            && r->Ok_0@ == Val::Undefined,
        this is Some && is_nullish(arg_or(args@, 0, Val::Undefined)) ==> r is Err && r->Err_0 is TypeError
            && final(realm)@ == old(realm)@ && final(host).calls() == old(host).calls(),
        this is Some && !is_nullish(arg_or(args@, 0, Val::Undefined)) ==> {
            &&& ran_elementwise(*old(host), *final(host), old(realm)@, final(realm)@, this->Some_0, args@, r)
            &&& r is Ok ==> r->Ok_0@ == Val::Undefined && calls_since(old(host).calls(), final(host).calls()).len()
                == length_of(old(realm)@, this->Some_0)
        },
{
    let t = match this {
        Some(t) => t,
        None => return Ok(Value::Undefined),
    };
    let callback = callback_arg(args)?;
    let receiver = receiver_arg(args);
    let mut iter = ArrayIter::new(realm, t).unwrap();
    let ghost base = host.calls();
    let ghost start = realm@;
    let ghost mut calls: Seq<CallRecord> = Seq::empty();
    proof {
        lemma_log_grows(base, calls);
    }
    while iter.index < iter.rev_index
        invariant
            this == Some(t),
            !is_nullish(arg_or(args@, 0, Val::Undefined)),
            start == old(realm)@,
            base == old(host).calls(),
            callback@ == arg_or(args@, 0, Val::Undefined),
            receiver == receiver_of(args@),
            iter.array_object == t,
            iter.index <= iter.rev_index,
            iter.rev_index == length_of(start, t),
            host.calls() == base + calls,
            calls_since(base, host.calls()) == calls,
            extends(base, host.calls()),
            calls.len() == iter.index,
            element_calls(calls, callback@, receiver, t, start, realm@),
            all_ok(calls),
        decreases iter.rev_index - iter.index,
    {
        let ghost mid = realm@;
        let (i, item) = iter.next(realm).unwrap().unwrap();
        let call_args = callback_args(item, i, t);
        let res = host.call(realm, &callback, receiver, &call_args);
        proof {
            let rec = host.calls().last();
            assert(host.calls() =~= base + calls.push(rec));
            lemma_element_calls_push(calls, rec, callback@, receiver, t, start, mid);
            calls = calls.push(rec);
            lemma_log_grows(base, calls);
        }
        match res {
            Err(e) => {
                return Err(e);
            },
            Ok(_) => {},
        }
    }
    Ok(Value::Undefined)
}

/// Implements `Array.map`: a new array of the callback's results, one per
/// element of the length read at the start.
pub fn map<I: Invoke>(realm: &mut Realm, host: &mut Host<I>, this: Option<ObjectId>, args: &[Value]) -> (r: Result<Value, Error>)
    ensures
        this is None ==> final(realm)@ == old(realm)@ && final(host).calls() == old(host).calls() && r is Ok
            && r->Ok_0@ == Val::Undefined,
        this is Some && is_nullish(arg_or(args@, 0, Val::Undefined)) ==> r is Err && r->Err_0 is TypeError
            && final(realm)@ == old(realm)@ && final(host).calls() == old(host).calls(),
        this is Some && !is_nullish(arg_or(args@, 0, Val::Undefined)) ==> {
            let calls = calls_since(old(host).calls(), final(host).calls());
            &&& ran_elementwise(
                *old(host),
                *final(host),
                old(realm)@,
                if r is Ok { final(realm)@.drop_last() } else { final(realm)@ },
                this->Some_0,
                args@,
                r,
            )
            &&& r is Ok ==> calls.len() == length_of(old(realm)@, this->Some_0) && built_array(
                final(realm)@.drop_last(),
                final(realm)@,
                final(realm).spec_array_proto(),
                present(call_results(calls)),
                r->Ok_0,
            )
        },
{
    let t = match this {
        Some(t) => t,
        None => return Ok(Value::Undefined),
    };
    let callback = callback_arg(args)?;
    let receiver = receiver_arg(args);
    let mut new_array = ArrayStorage::new(0);
    let mut iter = ArrayIter::new(realm, t).unwrap();
    let ghost base = host.calls();
    let ghost start = realm@;
    let ghost mut calls: Seq<CallRecord> = Seq::empty();
    proof {
        lemma_log_grows(base, calls);
    }
    assert(new_array@ =~= present(call_results(calls)));
    while iter.index < iter.rev_index
        invariant
            this == Some(t),
            !is_nullish(arg_or(args@, 0, Val::Undefined)),
            start == old(realm)@,
            base == old(host).calls(),
            callback@ == arg_or(args@, 0, Val::Undefined),
            receiver == receiver_of(args@),
            iter.array_object == t,
            iter.index <= iter.rev_index,
            iter.rev_index == length_of(start, t),
            host.calls() == base + calls,
            calls_since(base, host.calls()) == calls,
            extends(base, host.calls()),
            calls.len() == iter.index,
            element_calls(calls, callback@, receiver, t, start, realm@),
            all_ok(calls),
            new_array@ == present(call_results(calls)),
        decreases iter.rev_index - iter.index,
    {
        let ghost mid = realm@;
        let (i, item) = iter.next(realm).unwrap().unwrap();
        let call_args = callback_args(item, i, t);
        let res = host.call(realm, &callback, receiver, &call_args);
        proof {
            let rec = host.calls().last();
            assert(host.calls() =~= base + calls.push(rec));
            lemma_element_calls_push(calls, rec, callback@, receiver, t, start, mid);
            calls = calls.push(rec);
            lemma_log_grows(base, calls);
        }
        match res {
            Err(e) => {
                return Err(e);
            },
            Ok(new_item) => {
                new_array.push(new_item);
                assert(new_array@ =~= present(call_results(calls)));
            },
        }
    }
    let ghost before_build = realm@;
    let r = build_array(realm, new_array);
    assert(realm@.drop_last() == before_build);
    r
}

/// Implements `Array.filter`: a new array of the elements for which the
/// callback's result is truthy, in index order.
pub fn filter<I: Invoke>(realm: &mut Realm, host: &mut Host<I>, this: Option<ObjectId>, args: &[Value]) -> (r: Result<Value, Error>)
    ensures
        this is None ==> final(realm)@ == old(realm)@ && final(host).calls() == old(host).calls() && r is Ok
            && r->Ok_0@ == Val::Undefined,
        this is Some && is_nullish(arg_or(args@, 0, Val::Undefined)) ==> r is Err && r->Err_0 is TypeError
            && final(realm)@ == old(realm)@ && final(host).calls() == old(host).calls(),
        this is Some && !is_nullish(arg_or(args@, 0, Val::Undefined)) ==> {
            let calls = calls_since(old(host).calls(), final(host).calls());
            &&& ran_elementwise(
                *old(host),
                *final(host),
                old(realm)@,
                if r is Ok { final(realm)@.drop_last() } else { final(realm)@ },
                this->Some_0,
                args@,
                r,
            )
            &&& r is Ok ==> calls.len() == length_of(old(realm)@, this->Some_0) && built_array(
                final(realm)@.drop_last(),
                final(realm)@,
                final(realm).spec_array_proto(),
                present(kept_items(calls)),
                r->Ok_0,
            )
        },
{
    let t = match this {
        Some(t) => t,
        None => return Ok(Value::Undefined),
    };
    let callback = callback_arg(args)?;
    let receiver = receiver_arg(args);
    let mut new_array = ArrayStorage::new(0);
    let mut iter = ArrayIter::new(realm, t).unwrap();
    let ghost base = host.calls();
    let ghost start = realm@;
    let ghost mut calls: Seq<CallRecord> = Seq::empty();
    proof {
        lemma_log_grows(base, calls);
    }
    assert(new_array@ =~= present(kept_items(calls)));
    while iter.index < iter.rev_index
        invariant
            this == Some(t),
            !is_nullish(arg_or(args@, 0, Val::Undefined)),
            start == old(realm)@,
            base == old(host).calls(),
            callback@ == arg_or(args@, 0, Val::Undefined),
            receiver == receiver_of(args@),
            iter.array_object == t,
            iter.index <= iter.rev_index,
            iter.rev_index == length_of(start, t),
            host.calls() == base + calls,
            calls_since(base, host.calls()) == calls,
            extends(base, host.calls()),
            calls.len() == iter.index,
            element_calls(calls, callback@, receiver, t, start, realm@),
            all_ok(calls),
            new_array@ == present(kept_items(calls)),
        decreases iter.rev_index - iter.index,
    {
        let ghost mid = realm@;
        let (i, item) = iter.next(realm).unwrap().unwrap();
        let call_args = callback_args(item.duplicate(), i, t);
        let res = host.call(realm, &callback, receiver, &call_args);
        proof {
            let rec = host.calls().last();
            assert(host.calls() =~= base + calls.push(rec));
            lemma_element_calls_push(calls, rec, callback@, receiver, t, start, mid);
            assert(calls.push(rec).drop_last() == calls);
            calls = calls.push(rec);
            lemma_log_grows(base, calls);
        }
        match res {
            Err(e) => {
                return Err(e);
            },
            Ok(result) => {
                if result.coerce_to_boolean() {
                    new_array.push(item);
                }
                assert(new_array@ =~= present(kept_items(calls)));
            },
        }
    }
    let ghost before_build = realm@;
    let r = build_array(realm, new_array);
    assert(realm@.drop_last() == before_build);
    r
}

/// Implements `Array.every`: `false` at the first element for which the
/// callback's result is falsy, with no later call; else `true`.
pub fn every<I: Invoke>(realm: &mut Realm, host: &mut Host<I>, this: Option<ObjectId>, args: &[Value]) -> (r: Result<Value, Error>)
    ensures
        this is None ==> final(realm)@ == old(realm)@ && final(host).calls() == old(host).calls() && r is Ok
            && r->Ok_0@ == Val::Undefined,
        this is Some && is_nullish(arg_or(args@, 0, Val::Undefined)) ==> r is Err && r->Err_0 is TypeError
            && final(realm)@ == old(realm)@ && final(host).calls() == old(host).calls(),
        this is Some && !is_nullish(arg_or(args@, 0, Val::Undefined)) ==> {
            let calls = calls_since(old(host).calls(), final(host).calls());
            &&& ran_elementwise(*old(host), *final(host), old(realm)@, final(realm)@, this->Some_0, args@, r)
            &&& r is Ok ==> r->Ok_0@ == Val::Bool(true) || r->Ok_0@ == Val::Bool(false)
            &&& r is Ok ==> forall|k: int| 0 <= k < calls.len() - 1 ==> truthy(#[trigger] calls[k])
            &&& r is Ok ==> (r->Ok_0@ == Val::Bool(true) <==> calls.len() == length_of(old(realm)@, this->Some_0)
                && (calls.len() == 0 || truthy(calls.last())))
            &&& r is Ok ==> (r->Ok_0@ == Val::Bool(false) <==> calls.len() > 0 && !truthy(calls.last()))
        },
{
    let t = match this {
        Some(t) => t,
        None => return Ok(Value::Undefined),
    };
    let callback = callback_arg(args)?;
    let receiver = receiver_arg(args);
    let mut iter = ArrayIter::new(realm, t).unwrap();
    let ghost base = host.calls();
    let ghost start = realm@;
    let ghost mut calls: Seq<CallRecord> = Seq::empty();
    proof {
        lemma_log_grows(base, calls);
    }
    while iter.index < iter.rev_index
        invariant
            this == Some(t),
            !is_nullish(arg_or(args@, 0, Val::Undefined)),
            start == old(realm)@,
            base == old(host).calls(),
            callback@ == arg_or(args@, 0, Val::Undefined),
            receiver == receiver_of(args@),
            iter.array_object == t,
            iter.index <= iter.rev_index,
            iter.rev_index == length_of(start, t),
            host.calls() == base + calls,
            calls_since(base, host.calls()) == calls,
            extends(base, host.calls()),
            calls.len() == iter.index,
            element_calls(calls, callback@, receiver, t, start, realm@),
            all_ok(calls),
            forall|k: int| 0 <= k < calls.len() ==> truthy(#[trigger] calls[k]),
        decreases iter.rev_index - iter.index,
    {
        let ghost mid = realm@;
        let (i, item) = iter.next(realm).unwrap().unwrap();
        let call_args = callback_args(item, i, t);
        let res = host.call(realm, &callback, receiver, &call_args);
        proof {
            let rec = host.calls().last();
            assert(host.calls() =~= base + calls.push(rec));
            lemma_element_calls_push(calls, rec, callback@, receiver, t, start, mid);
            calls = calls.push(rec);
            lemma_log_grows(base, calls);
        }
        match res {
            Err(e) => {
                return Err(e);
            },
            Ok(result) => {
                if !result.coerce_to_boolean() {
                    return Ok(Value::Bool(false));
                }
            },
        }
    }
    Ok(Value::Bool(true))
}

/// Implements `Array.some`: `true` at the first element for which the
/// callback's result is truthy, with no later call; else `false`.
pub fn some<I: Invoke>(realm: &mut Realm, host: &mut Host<I>, this: Option<ObjectId>, args: &[Value]) -> (r: Result<Value, Error>)
    ensures
        this is None ==> final(realm)@ == old(realm)@ && final(host).calls() == old(host).calls() && r is Ok
            && r->Ok_0@ == Val::Undefined,
        this is Some && is_nullish(arg_or(args@, 0, Val::Undefined)) ==> r is Err && r->Err_0 is TypeError
            && final(realm)@ == old(realm)@ && final(host).calls() == old(host).calls(),
        this is Some && !is_nullish(arg_or(args@, 0, Val::Undefined)) ==> {
            let calls = calls_since(old(host).calls(), final(host).calls());
            &&& ran_elementwise(*old(host), *final(host), old(realm)@, final(realm)@, this->Some_0, args@, r)
            &&& r is Ok ==> r->Ok_0@ == Val::Bool(true) || r->Ok_0@ == Val::Bool(false)
            &&& r is Ok ==> forall|k: int| 0 <= k < calls.len() - 1 ==> !truthy(#[trigger] calls[k])
            &&& r is Ok ==> (r->Ok_0@ == Val::Bool(false) <==> calls.len() == length_of(old(realm)@, this->Some_0)
                && (calls.len() == 0 || !truthy(calls.last())))
            &&& r is Ok ==> (r->Ok_0@ == Val::Bool(true) <==> calls.len() > 0 && truthy(calls.last()))
        },
{
    let t = match this {
        Some(t) => t,
        None => return Ok(Value::Undefined),
    };
    let callback = callback_arg(args)?;
    let receiver = receiver_arg(args);
    let mut iter = ArrayIter::new(realm, t).unwrap();
    let ghost base = host.calls();
    let ghost start = realm@;
    let ghost mut calls: Seq<CallRecord> = Seq::empty();
    proof {
        lemma_log_grows(base, calls);
    }
    while iter.index < iter.rev_index
        invariant
            this == Some(t),
            !is_nullish(arg_or(args@, 0, Val::Undefined)),
            start == old(realm)@,
            base == old(host).calls(),
            callback@ == arg_or(args@, 0, Val::Undefined),
            receiver == receiver_of(args@),
            iter.array_object == t,
            iter.index <= iter.rev_index,
            iter.rev_index == length_of(start, t),
            host.calls() == base + calls,
            calls_since(base, host.calls()) == calls,
            extends(base, host.calls()),
            calls.len() == iter.index,
            element_calls(calls, callback@, receiver, t, start, realm@),
            all_ok(calls),
            forall|k: int| 0 <= k < calls.len() ==> !truthy(#[trigger] calls[k]),
        decreases iter.rev_index - iter.index,
    {
        let ghost mid = realm@;
        let (i, item) = iter.next(realm).unwrap().unwrap();
        let call_args = callback_args(item, i, t);
        let res = host.call(realm, &callback, receiver, &call_args);
        proof {
            let rec = host.calls().last();
            assert(host.calls() =~= base + calls.push(rec));
            lemma_element_calls_push(calls, rec, callback@, receiver, t, start, mid);
            calls = calls.push(rec);
            lemma_log_grows(base, calls);
        }
        match res {
            Err(e) => {
                return Err(e);
            },
            Ok(result) => {
                if result.coerce_to_boolean() {
                    return Ok(Value::Bool(true));
                }
            },
        }
    }
    Ok(Value::Bool(false))
}

/// How many of the first `k` elements are objects.
pub open spec fn objects_before(all: Seq<Val>, k: int) -> int
    decreases k,
{
    if k <= 0 {
        0
    } else {
        objects_before(all, k - 1) + if all[k - 1] is Object {
            1int
        } else {
            0int
        }
    }
}

proof fn lemma_objects_before_monotonic(all: Seq<Val>, a: int, b: int)
    requires
        0 <= a <= b,
    ensures
        objects_before(all, a) <= objects_before(all, b),
    decreases b - a,
{
    if a < b {
        lemma_objects_before_monotonic(all, a, b - 1);
    }
}

/// A call of the `toLocaleString` that object `o` held then, on `o`, with no
/// arguments.
pub open spec fn locale_call(c: CallRecord, o: ObjectId) -> bool {
    &&& c.callee == get_property_of(c.before, o, KeyModel::Name("toLocaleString"@))
    &&& c.receiver == Some(o)
    &&& c.args.len() == 0
}

/// The text of element `k`: nothing for null and undefined, the text of
/// what its `toLocaleString` call returned for an object, its own text
/// otherwise.
pub open spec fn locale_part(all: Seq<Val>, calls: Seq<CallRecord>, k: int) -> Seq<char> {
    match all[k] {
        Val::Undefined => Seq::empty(),
        Val::Null => Seq::empty(),
        Val::Object(_) => to_text(calls[objects_before(all, k)].result->Ok_0@),
        v => to_text(v),
    }
}

/// Texts with `sep` between each two.
pub open spec fn joined_text(texts: Seq<Seq<char>>, sep: Seq<char>) -> Seq<char>
    decreases texts.len(),
{
    if texts.len() == 0 {
        Seq::empty()
    } else if texts.len() == 1 {
        texts[0]
    } else {
        joined_text(texts.drop_last(), sep) + sep + texts.last()
    }
}

/// Implements `Array.toLocaleString`: the elements joined with commas, each
/// object converted by calling its own `toLocaleString`, in index order.
/// Numbers, strings and booleans have no wrapper objects in the realm, so
/// no `toLocaleString` of theirs can be looked up: they are written as their
/// own text.
pub fn to_locale_string<I: Invoke>(realm: &mut Realm, host: &mut Host<I>, this: Option<ObjectId>, args: &[Value]) -> (r: Result<Value, Error>)
    ensures
        !is_array(old(realm)@, this) ==> final(realm)@ == old(realm)@ && final(host).calls() == old(host).calls()
            && r is Ok && r->Ok_0@ == Val::Undefined,
        is_array(old(realm)@, this) ==> {
            let all = resolved_values(old(realm)@, this->Some_0);
            let calls = calls_since(old(host).calls(), final(host).calls());
            &&& extends(old(host).calls(), final(host).calls())
            &&& chained(calls, old(realm)@, final(realm)@)
            &&& all_but_last_ok(calls)
            &&& forall|k: int|
                0 <= k < all.len() && (#[trigger] all[k]) is Object && objects_before(all, k) < calls.len()
                    ==> locale_call(calls[objects_before(all, k)], all[k]->Object_0)
            &&& r is Err ==> calls.len() > 0 && calls.last().result is Err && r->Err_0 == calls.last().result->Err_0
            &&& r is Ok ==> calls.len() == objects_before(all, all.len() as int) && all_ok(calls) && r->Ok_0@
                == Val::String(joined_text(Seq::new(all.len(), |k: int| locale_part(all, calls, k)), ","@))
        },
{
    let t = match this {
        Some(t) => t,
        None => return Ok(Value::Undefined),
    };
    if realm.array_storage(t).is_none() {
        return Ok(Value::Undefined);
    }
    let all = resolved_contents(realm, t);
    let ghost parts = crate::array::values_view(all@);
    let ghost start = realm@;
    let ghost base = host.calls();
    let ghost mut calls: Seq<CallRecord> = Seq::empty();
    let ghost mut texts: Seq<Seq<char>> = Seq::empty();
    proof {
        lemma_log_grows(base, calls);
    }
    let separator = String::from_str(",");
    let mut accum = String::new();
    let mut i: usize = 0;
    while i < all.len()
        invariant
            i <= all@.len(),
            parts == crate::array::values_view(all@),
            this == Some(t),
            start == old(realm)@,
            base == old(host).calls(),
            crate::realm::storage_of(start, t) is Some,
            parts == resolved_values(start, t),
            separator@ == ","@,
            host.calls() == base + calls,
            calls_since(base, host.calls()) == calls,
            extends(base, host.calls()),
            calls.len() == objects_before(parts, i as int),
            chained(calls, start, realm@),
            all_ok(calls),
            forall|k: int|
                0 <= k < i && (#[trigger] parts[k]) is Object ==> locale_call(
                    calls[objects_before(parts, k)],
                    parts[k]->Object_0,
                ),
            texts.len() == i,
            accum@ == joined_text(texts, ","@),
            forall|k: int| 0 <= k < i ==> #[trigger] texts[k] == locale_part(parts, calls, k),
        decreases all@.len() - i,
    {
        assert(parts[i as int] == all@[i as int]@);
        if i > 0 {
            accum.append(separator.as_str());
        }
        let ghost mid = realm@;
        let text = match &all[i] {
            Value::Undefined | Value::Null => String::new(),
            Value::Object(o) => {
                let name = String::from_str("toLocaleString");
                let tls = realm.get_property(*o, &PropKey::Name(name));
                let no_args: [Value; 0] = [];
                assert(args_view(no_args@).len() == 0);
                let res = host.call(realm, &tls, Some(*o), &no_args);
                proof {
                    let rec = host.calls().last();
                    assert(host.calls() =~= base + calls.push(rec));
                    lemma_chained_push(calls, rec, start, mid);
                    let c2 = calls.push(rec);
                    assert forall|k: int|
                        0 <= k < i && (#[trigger] parts[k]) is Object implies locale_call(
                            c2[objects_before(parts, k)],
                            parts[k]->Object_0,
                        ) by {
                        lemma_objects_before_monotonic(parts, k + 1, i as int);
                        lemma_objects_before_monotonic(parts, 0, k);
                        assert(objects_before(parts, k + 1) == objects_before(parts, k) + 1);
                        assert(c2[objects_before(parts, k)] == calls[objects_before(parts, k)]);
                    }
                    assert forall|k: int| 0 <= k < i implies #[trigger] texts[k] == locale_part(parts, c2, k) by {
                        if parts[k] is Object {
                            lemma_objects_before_monotonic(parts, k + 1, i as int);
                            lemma_objects_before_monotonic(parts, 0, k);
                            assert(objects_before(parts, k + 1) == objects_before(parts, k) + 1);
                            assert(c2[objects_before(parts, k)] == calls[objects_before(parts, k)]);
                        }
                    }
                    assert(c2[objects_before(parts, i as int)] == rec);
                    calls = c2;
                    lemma_log_grows(base, calls);
                }
                match res {
                    Ok(v) => v.coerce_to_string(),
                    Err(e) => {
                        proof {
                            let n = parts.len() as int;
                            assert forall|k: int|
                                0 <= k < n && (#[trigger] parts[k]) is Object && objects_before(parts, k)
                                    < calls.len() implies locale_call(
                                calls[objects_before(parts, k)],
                                parts[k]->Object_0,
                            ) by {
                                if k > i {
                                    lemma_objects_before_monotonic(parts, i + 1, k);
                                }
                            }
                        }
                        return Err(e);
                    },
                }
            },
            v => v.coerce_to_string(),
        };
        proof {
            let t2 = texts.push(text@);
            assert(t2.drop_last() =~= texts);
            texts = t2;
        }
        accum.append(text.as_str());
        i = i + 1;
    }
    assert(texts =~= Seq::new(parts.len(), |k: int| locale_part(parts, calls, k)));
    Ok(Value::String(accum))
}

} // verus!
