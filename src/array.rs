//! The methods of `Array` that read or rewrite the receiver's storage without
//! running user code.

use vstd::prelude::*;
use crate::realm::{get_property_of, storage_of, KeyModel, ObjectData, PropKey, Realm};
use crate::storage::{present, resized, slot_or_undefined, slot_view, ArrayStorage};
use crate::value::{strict_equal, to_i32, to_text, to_u32, Error, Number, ObjectId, Val, Value};
use vstd::string::*;

verus! {

pub open spec fn values_view(vs: Seq<Value>) -> Seq<Val> {
    vs.map_values(|v: Value| v@)
}

/// The prototype of `obj`, where `obj` exists.
pub open spec fn proto_of(objects: Seq<ObjectData>, obj: ObjectId) -> Option<ObjectId> {
    if obj < objects.len() {
        objects[obj as int].proto
    } else {
        None
    }
}

/// What reading slot `i` of `this` observes: a present value as stored, a hole
/// through a property read of index `i` on the prototype.
pub open spec fn resolve_slot(objects: Seq<ObjectData>, this: ObjectId, i: int, slot: Option<Val>) -> Val {
    match slot {
        Some(v) => v,
        None => match proto_of(objects, this) {
            Some(p) => get_property_of(objects, p, KeyModel::Index(i as usize)),
            None => Val::Undefined,
        },
    }
}

/// Every slot of the array `this`, holes resolved.
pub open spec fn resolved_values(objects: Seq<ObjectData>, this: ObjectId) -> Seq<Val> {
    let st = storage_of(objects, this).unwrap();
    Seq::new(st.len(), |i: int| resolve_slot(objects, this, i, st[i]))
}

pub open spec fn is_array(objects: Seq<ObjectData>, this: Option<ObjectId>) -> bool {
    match this {
        Some(t) => storage_of(objects, t) is Some,
        None => false,
    }
}

/// `after` is `before` with one more object: an array over `st` whose
/// prototype is `proto`, and `r` refers to it.
pub open spec fn built_array(
    before: Seq<ObjectData>,
    after: Seq<ObjectData>,
    proto: Option<ObjectId>,
    st: Seq<Option<Val>>,
    r: Value,
) -> bool {
    &&& after.len() == before.len() + 1
    &&& before.len() < usize::MAX
    &&& after.drop_last() == before
    &&& r@ == Val::Object(before.len() as ObjectId)
    &&& after.last().proto == proto
    &&& storage_of(after, before.len() as ObjectId) == Some(st)
    &&& after.last().props@.len() == 0
}

/// `after` is `before` with the storage of `t` now `st`, all else unchanged.
pub open spec fn replaced_storage(
    before: Seq<ObjectData>,
    after: Seq<ObjectData>,
    t: ObjectId,
    st: Seq<Option<Val>>,
) -> bool {
    &&& after.len() == before.len()
    &&& t < before.len()
    &&& forall|k: int| 0 <= k < before.len() && k != t ==> after[k] == before[k]
    &&& after[t as int].proto == before[t as int].proto
    &&& after[t as int].props == before[t as int].props
    &&& storage_of(after, t) == Some(st)
}

/// The argument at `i`, or `default` where there are fewer arguments.
pub open spec fn arg_or(args: Seq<Value>, i: int, default: Val) -> Val {
    if i < args.len() {
        args[i]@
    } else {
        default
    }
}

/// Appends a copy of `v`.
pub fn push_value(out: &mut Vec<Value>, v: &Value)
    ensures
        values_view(final(out)@) == values_view(old(out)@).push(v@),
{
    out.push(v.duplicate());
    assert(values_view(out@) =~= values_view(old(out)@).push(v@));
}

pub fn arg_or_undefined(args: &[Value], i: usize) -> (r: Value)
    ensures
        r@ == arg_or(args@, i as int, Val::Undefined),
{
    if i < args.len() {
        args[i].duplicate()
    } else {
        Value::Undefined
    }
}

/// Wraps a finished storage into a new array object.
pub fn build_array(realm: &mut Realm, array: ArrayStorage) -> (r: Result<Value, Error>)
    ensures
        r is Ok,
        built_array(old(realm)@, final(realm)@, old(realm).spec_array_proto(), array@, r->Ok_0),
        final(realm).spec_array_proto() == old(realm).spec_array_proto(),
{
    let proto = realm.array_proto();
    let id = realm.allocate(ObjectData::array(array, proto));
    assert(realm@.drop_last() =~= old(realm)@);
    Ok(Value::Object(id))
}

/// Resolves a hole: a present `item` is returned as it is; for a hole, index
/// `i` is read from the prototype of `this`.
pub fn resolve_array_hole(realm: &Realm, this: ObjectId, i: usize, item: Option<Value>) -> (r: Result<Value, Error>)
    ensures
        r is Ok,
        r->Ok_0@ == resolve_slot(realm@, this, i as int, slot_view(item)),
{
    match item {
        Some(v) => Ok(v),
        None => match realm.proto(this) {
            Some(p) => Ok(realm.get_property(p, &PropKey::Index(i))),
            None => Ok(Value::Undefined),
        },
    }
}

/// Every slot of the array `this`, holes resolved.
pub fn resolved_contents(realm: &Realm, this: ObjectId) -> (r: Vec<Value>)
    requires
        storage_of(realm@, this) is Some,
    ensures
        values_view(r@) == resolved_values(realm@, this),
{
    let st = realm.array_storage(this).unwrap();
    let n = st.length();
    let mut out: Vec<Value> = Vec::new();
    let mut i: usize = 0;
    while i < n
        invariant
            n == st@.len(),
            storage_of(realm@, this) == Some(st@),
            i <= n,
            out@.len() == i,
            forall|k: int| 0 <= k < i ==> (#[trigger] out@[k])@ == resolve_slot(realm@, this, k, st@[k]),
        decreases n - i,
    {
        let v = resolve_array_hole(realm, this, i, st.get(i)).unwrap();
        out.push(v);
        i = i + 1;
    }
    assert(values_view(out@) =~= resolved_values(realm@, this));
    out
}

/// Offset from an index argument: negative counts back from the end,
/// saturating at 0; non-negative is clamped to `length`.
pub open spec fn resolved_index(index: Val, length: nat) -> nat {
    let i = to_i32(index) as int;
    if i < 0 {
        if length + i < 0 {
            0
        } else {
            (length + i) as nat
        }
    } else if i > length {
        length
    } else {
        i as nat
    }
}

/// Resolves a possibly negative index argument to an offset in `[0, length]`.
pub fn resolve_index(index: &Value, length: usize) -> (r: Result<usize, Error>)
    ensures
        r is Ok,
        r->Ok_0 == resolved_index(index@, length as nat),
{
    let index = index.coerce_to_i32();
    if index < 0 {
        let offset: usize = (-(index as i64)) as usize;
        Ok(length.saturating_sub(offset))
    } else if index as usize > length {
        Ok(length)
    } else {
        Ok(index as usize)
    }
}

/// The default end of `slice`: a large index that clamps to the length.
pub const SLICE_END_DEFAULT: i64 = 0xFFFFFF;

/// The elements `slice` copies: from the resolved start up to the resolved
/// end, empty where the end is not past the start.
pub open spec fn slice_values(objects: Seq<ObjectData>, this: ObjectId, start: Val, end: Val) -> Seq<Val> {
    let all = resolved_values(objects, this);
    let s = resolved_index(start, all.len());
    let e = resolved_index(end, all.len());
    if s <= e {
        all.subrange(s as int, e as int)
    } else {
        Seq::empty()
    }
}

/// Implements `Array.slice`: a new array of the resolved elements in the
/// range; the receiver is not changed.
pub fn slice(realm: &mut Realm, this: Option<ObjectId>, args: &[Value]) -> (r: Result<Value, Error>)
    ensures
        r is Ok,
        !is_array(old(realm)@, this) ==> final(realm)@ == old(realm)@ && r->Ok_0@ == Val::Undefined,
        is_array(old(realm)@, this) ==> built_array(
            old(realm)@,
            final(realm)@,
            old(realm).spec_array_proto(),
            present(
                slice_values(
                    old(realm)@,
                    this->Some_0,
                    arg_or(args@, 0, Val::Number(Number::Int(0))),
                    arg_or(args@, 1, Val::Number(Number::Int(SLICE_END_DEFAULT))),
                ),
            ),
            r->Ok_0,
        ),
        final(realm).spec_array_proto() == old(realm).spec_array_proto(),
{
    let this = match this {
        Some(t) => t,
        None => return Ok(Value::Undefined),
    };
    let array_length = match realm.array_storage(this) {
        Some(st) => st.length(),
        None => return Ok(Value::Undefined),
    };
    let start_arg = if args.len() > 0 { args[0].duplicate() } else { Value::Number(Number::Int(0)) };
    let end_arg = if args.len() > 1 {
        args[1].duplicate()
    } else {
        Value::Number(Number::Int(SLICE_END_DEFAULT))
    };
    let actual_start = resolve_index(&start_arg, array_length)?;
    let actual_end = resolve_index(&end_arg, array_length)?;
    let all = resolved_contents(realm, this);
    let ghost expected = slice_values(realm@, this, start_arg@, end_arg@);
    let mut new_array = ArrayStorage::new(0);
    let mut i: usize = actual_start;
    while i < actual_end
        invariant
            all@.len() == array_length,
            values_view(all@) == resolved_values(realm@, this),
            actual_start <= array_length,
            actual_end <= array_length,
            actual_start <= i,
            i <= actual_end || i == actual_start,
            new_array@ =~= present(values_view(all@).subrange(actual_start as int, i as int)),
        decreases actual_end - i,
    {
        new_array.push(all[i].duplicate());
        i = i + 1;
        assert(new_array@ =~= present(values_view(all@).subrange(actual_start as int, i as int)));
    }
    assert(new_array@ =~= present(expected));
    build_array(realm, new_array)
}

/// The number of elements `splice` removes from `start`: the count clamped
/// to `[0, length - start]`.
pub open spec fn splice_removed_count(count: int, start: nat, length: nat) -> nat {
    if count < 0 {
        0
    } else if count > length - start {
        (length - start) as nat
    } else {
        count as nat
    }
}

/// What `splice` leaves in the receiver, given the resolved contents.
pub open spec fn spliced(all: Seq<Val>, start: nat, removed: nat, items: Seq<Val>) -> Seq<Val> {
    all.subrange(0, start as int) + items + all.subrange((start + removed) as int, all.len() as int)
}

/// Implements `Array.splice`: resolves every hole, removes up to the delete
/// count of elements from the resolved start, inserts the remaining
/// arguments there, and returns the removed elements as a new array.
pub fn splice(realm: &mut Realm, this: Option<ObjectId>, args: &[Value]) -> (r: Result<Value, Error>)
    ensures
        r is Ok,
        !is_array(old(realm)@, this) || args@.len() == 0 ==> final(realm)@ == old(realm)@
            && r->Ok_0@ == Val::Undefined,
        is_array(old(realm)@, this) && args@.len() > 0 ==> {
            let t = this->Some_0;
            let all = resolved_values(old(realm)@, t);
            let start = resolved_index(args@[0]@, all.len());
            let count = splice_removed_count(
                to_i32(arg_or(args@, 1, Val::Number(Number::Int(all.len() as i64)))) as int,
                start,
                all.len(),
            );
            let items = values_view(args@.subrange(if args@.len() > 2 { 2 } else { args@.len() as int }, args@.len() as int));
            &&& replaced_storage(
                old(realm)@,
                final(realm)@.drop_last(),
                t,
                present(spliced(all, start, count, items)),
            )
            &&& built_array(
                final(realm)@.drop_last(),
                final(realm)@,
                old(realm).spec_array_proto(),
                present(all.subrange(start as int, (start + count) as int)),
                r->Ok_0,
            )
        },
        final(realm).spec_array_proto() == old(realm).spec_array_proto(),
{
    let this = match this {
        Some(t) => t,
        None => return Ok(Value::Undefined),
    };
    let array_length = match realm.array_storage(this) {
        Some(st) => st.length(),
        None => return Ok(Value::Undefined),
    };
    if args.len() == 0 {
        return Ok(Value::Undefined);
    }
    let actual_start = resolve_index(&args[0], array_length)?;
    let delete_count = if args.len() > 1 {
        args[1].coerce_to_i32()
    } else {
        Value::Number(Number::Int(array_length as i64)).coerce_to_i32()
    };
    let removed_count: usize = if delete_count < 0 {
        0
    } else if delete_count as usize > array_length - actual_start {
        array_length - actual_start
    } else {
        delete_count as usize
    };
    let actual_end = actual_start + removed_count;
    let resolved = resolved_contents(realm, this);
    let ghost all = values_view(resolved@);
    let first_item: usize = if args.len() > 2 { 2 } else { args.len() };
    let ghost items = values_view(args@.subrange(first_item as int, args@.len() as int));

    let mut removed: Vec<Value> = Vec::new();
    let mut kept: Vec<Value> = Vec::new();
    let mut i: usize = 0;
    while i < actual_start
        invariant
            resolved@.len() == array_length,
            actual_start <= array_length,
            i <= actual_start,
            values_view(kept@) =~= all.subrange(0, i as int),
            all == values_view(resolved@),
        decreases actual_start - i,
    {
        push_value(&mut kept, &resolved[i]);
        i = i + 1;
        assert(values_view(kept@) =~= all.subrange(0, i as int));
    }
    let mut j: usize = first_item;
    while j < args.len()
        invariant
            first_item <= j <= args@.len(),
            all.len() == array_length,
            actual_start <= array_length,
            values_view(kept@) =~= all.subrange(0, actual_start as int) + values_view(
                args@.subrange(first_item as int, j as int),
            ),
        decreases args@.len() - j,
    {
        push_value(&mut kept, &args[j]);
        j = j + 1;
        assert(values_view(kept@) =~= all.subrange(0, actual_start as int) + values_view(
            args@.subrange(first_item as int, j as int),
        ));
    }
    assert(args@.subrange(first_item as int, j as int) =~= args@.subrange(first_item as int, args@.len() as int));
    while i < actual_end
        invariant
            resolved@.len() == array_length,
            actual_start <= i <= actual_end,
            actual_end <= array_length,
            actual_end == actual_start + removed_count,
            values_view(removed@) =~= all.subrange(actual_start as int, i as int),
            all == values_view(resolved@),
        decreases actual_end - i,
    {
        push_value(&mut removed, &resolved[i]);
        i = i + 1;
        assert(values_view(removed@) =~= all.subrange(actual_start as int, i as int));
    }
    let ghost prefix = values_view(kept@);
    while i < array_length
        invariant
            resolved@.len() == array_length,
            actual_end <= i <= array_length,
            values_view(kept@) =~= prefix + all.subrange(actual_end as int, i as int),
            all == values_view(resolved@),
        decreases array_length - i,
    {
        push_value(&mut kept, &resolved[i]);
        i = i + 1;
        assert(values_view(kept@) =~= prefix + all.subrange(actual_end as int, i as int));
    }
    let ghost old_objects = realm@;
    let removed_array = ArrayStorage::from_args(removed.as_slice());
    let resolved_array = ArrayStorage::from_args(kept.as_slice());
    proof {
        assert(values_view(kept@) =~= spliced(all, actual_start as nat, removed_count as nat, items));
        assert(values_view(removed@) =~= all.subrange(actual_start as int, actual_start + removed_count));
    }
    realm.replace_storage(this, resolved_array);
    assert(storage_of(realm@, this) == Some(resolved_array@));
    let ghost mid = realm@;
    let r = build_array(realm, removed_array);
    assert(realm@.drop_last() == mid);
    assert(replaced_storage(old_objects, mid, this, resolved_array@));
    r
}

/// The storage of the array `this`.
pub open spec fn storage_at(objects: Seq<ObjectData>, this: Option<ObjectId>) -> Seq<Option<Val>> {
    storage_of(objects, this->Some_0)->Some_0
}

/// Puts a storage back into `t` after [`Realm::take_storage`] moved it out.
pub(crate) fn put_back(realm: &mut Realm, t: ObjectId, st: ArrayStorage, Ghost(orig): Ghost<Seq<ObjectData>>)
    requires
        t < orig.len(),
        orig[t as int].array is Some,
        old(realm)@ == orig.update(t as int, ObjectData { array: None, ..orig[t as int] }),
    ensures
        replaced_storage(orig, final(realm)@, t, st@),
        final(realm).spec_array_proto() == old(realm).spec_array_proto(),
{
    realm.replace_storage(t, st);
    assert forall|k: int| 0 <= k < orig.len() && k != t implies realm@[k] == orig[k] by {}
}

/// Storage `st` with `vals` written over its first slots.
pub open spec fn written(st: Seq<Option<Val>>, vals: Seq<Val>) -> Seq<Option<Val>> {
    Seq::new(
        if st.len() >= vals.len() { st.len() } else { vals.len() },
        |k: int| if k < vals.len() { Some(vals[k]) } else { st[k] },
    )
}

/// Implements `Array`'s instance initializer: one numeric argument sets the
/// length, which must be a non-negative integer; otherwise the arguments
/// become the elements.
pub fn instance_init(realm: &mut Realm, this: Option<ObjectId>, args: &[Value]) -> (r: Result<Value, Error>)
    ensures
        final(realm).spec_array_proto() == old(realm).spec_array_proto(),
        !is_array(old(realm)@, this) ==> final(realm)@ == old(realm)@ && r is Ok && r->Ok_0@
            == Val::Undefined,
        is_array(old(realm)@, this) && args@.len() == 1 && args@[0]@ is Number ==> match args@[0]@->Number_0 {
            Number::Int(n) if n >= 0 => r is Ok && r->Ok_0@ == Val::Undefined && replaced_storage(
                old(realm)@,
                final(realm)@,
                this->Some_0,
                resized(storage_at(old(realm)@, this), n as usize as nat),
            ),
            _ => r is Err && r->Err_0 is ArgumentError && final(realm)@ == old(realm)@,
        },
        is_array(old(realm)@, this) && !(args@.len() == 1 && args@[0]@ is Number) ==> r is Ok
            && r->Ok_0@ == Val::Undefined && replaced_storage(
            old(realm)@,
            final(realm)@,
            this->Some_0,
            written(storage_at(old(realm)@, this), values_view(args@)),
        ),
{
    let t = match this {
        Some(t) => t,
        None => return Ok(Value::Undefined),
    };
    if t >= realm.object_count() {
        return Ok(Value::Undefined);
    }
    if args.len() == 1 {
        if let Value::Number(n) = &args[0] {
            let expected_len = match n {
                Number::Int(k) => *k,
                Number::NaN => -1,
            };
            if realm.array_storage(t).is_none() {
                return Ok(Value::Undefined);
            }
            if expected_len < 0 {
                return Err(Error::ArgumentError(String::from_str("Length must be a positive integer")));
            }
            let ghost orig = realm@;
            let mut array = realm.take_storage(t).unwrap();
            array.set_length(expected_len as usize);
            put_back(realm, t, array, Ghost(orig));
            return Ok(Value::Undefined);
        }
    }
    let ghost orig = realm@;
    let mut array = match realm.take_storage(t) {
        Some(st) => st,
        None => return Ok(Value::Undefined),
    };
    let ghost st0 = array@;
    let mut i: usize = 0;
    while i < args.len()
        invariant
            i <= args@.len(),
            array@ =~= written(st0, values_view(args@).subrange(0, i as int)),
        decreases args@.len() - i,
    {
        array.set(i, args[i].duplicate());
        i = i + 1;
        assert(array@ =~= written(st0, values_view(args@).subrange(0, i as int)));
    }
    assert(values_view(args@).subrange(0, i as int) =~= values_view(args@));
    put_back(realm, t, array, Ghost(orig));
    Ok(Value::Undefined)
}

/// Implements `Array`'s class initializer.
pub fn class_init(realm: &mut Realm, this: Option<ObjectId>, args: &[Value]) -> (r: Result<Value, Error>)
    ensures
        final(realm)@ == old(realm)@,
        final(realm).spec_array_proto() == old(realm).spec_array_proto(),
        r is Ok && r->Ok_0@ == Val::Undefined,
{
    Ok(Value::Undefined)
}

/// Implements `Array.length`'s getter.
pub fn length(realm: &Realm, this: Option<ObjectId>, args: &[Value]) -> (r: Result<Value, Error>)
    ensures
        r is Ok,
        r->Ok_0@ == if is_array(realm@, this) {
            Val::Number(Number::Int(storage_at(realm@, this).len() as i64))
        } else {
            Val::Undefined
        },
{
    if let Some(t) = this {
        if let Some(array) = realm.array_storage(t) {
            return Ok(Value::Number(Number::Int(array.length() as i64)));
        }
    }
    Ok(Value::Undefined)
}

/// Implements `Array.length`'s setter: the argument, as an unsigned 32-bit
/// integer, becomes the length.
pub fn set_length(realm: &mut Realm, this: Option<ObjectId>, args: &[Value]) -> (r: Result<Value, Error>)
    ensures
        r is Ok && r->Ok_0@ == Val::Undefined,
        final(realm).spec_array_proto() == old(realm).spec_array_proto(),
        !is_array(old(realm)@, this) ==> final(realm)@ == old(realm)@,
        is_array(old(realm)@, this) ==> replaced_storage(
            old(realm)@,
            final(realm)@,
            this->Some_0,
            resized(storage_at(old(realm)@, this), to_u32(arg_or(args@, 0, Val::Undefined)) as nat),
        ),
{
    if let Some(t) = this {
        if t < realm.object_count() && realm.array_storage(t).is_some() {
            let size = arg_or_undefined(args, 0).coerce_to_u32();
            let ghost orig = realm@;
            let mut array = realm.take_storage(t).unwrap();
            array.set_length(size as usize);
            put_back(realm, t, array, Ghost(orig));
        }
    }
    Ok(Value::Undefined)
}

/// What `concat` starts from: the receiver's storage, or nothing.
pub open spec fn concat_base(objects: Seq<ObjectData>, this: Option<ObjectId>) -> Seq<Option<Val>> {
    if is_array(objects, this) {
        storage_at(objects, this)
    } else {
        Seq::empty()
    }
}

/// The storage `concat` builds: each array argument's slots are appended,
/// holes included, any other argument as one element; `None` where an
/// argument is null or undefined.
pub open spec fn concatenated(objects: Seq<ObjectData>, base: Seq<Option<Val>>, args: Seq<Val>) -> Option<Seq<Option<Val>>>
    decreases args.len(),
{
    if args.len() == 0 {
        Some(base)
    } else {
        match concatenated(objects, base, args.drop_last()) {
            None => None,
            Some(acc) => match args.last() {
                Val::Undefined => None,
                Val::Null => None,
                Val::Object(o) if storage_of(objects, o) is Some => Some(acc + storage_of(objects, o)->Some_0),
                v => Some(acc.push(Some(v))),
            },
        }
    }
}

/// Implements `Array.concat`.
pub fn concat(realm: &mut Realm, this: Option<ObjectId>, args: &[Value]) -> (r: Result<Value, Error>)
    ensures
        final(realm).spec_array_proto() == old(realm).spec_array_proto(),
        match concatenated(old(realm)@, concat_base(old(realm)@, this), values_view(args@)) {
            Some(st) => built_array(old(realm)@, final(realm)@, old(realm).spec_array_proto(), st, r->Ok_0) && r is Ok,
            None => r is Err && r->Err_0 is TypeError && final(realm)@ == old(realm)@,
        },
{
    let mut base_array = match this {
        Some(t) => match realm.array_storage(t) {
            Some(st) => st.duplicate(),
            None => ArrayStorage::new(0),
        },
        None => ArrayStorage::new(0),
    };
    let ghost base = concat_base(realm@, this);
    assert(base_array@ =~= base);
    let mut i: usize = 0;
    while i < args.len()
        invariant
            i <= args@.len(),
            base == concat_base(realm@, this),
            concatenated(realm@, base, values_view(args@).subrange(0, i as int)) == Some(base_array@),
        decreases args@.len() - i,
    {
        let ghost prefix = values_view(args@).subrange(0, i as int + 1);
        assert(prefix.drop_last() =~= values_view(args@).subrange(0, i as int));
        match &args[i] {
            Value::Undefined | Value::Null => {
                assert(values_view(args@)[i as int] == args@[i as int]@);
                proof {
                    lemma_concatenated_fails(realm@, base, values_view(args@), i as int);
                }
                return Err(Error::TypeError(String::from_str("Cannot convert null or undefined to an object")));
            },
            Value::Object(o) => match realm.array_storage(*o) {
                Some(other) => base_array.append(other),
                None => base_array.push(args[i].duplicate()),
            },
            _ => base_array.push(args[i].duplicate()),
        }
        i = i + 1;
    }
    assert(values_view(args@).subrange(0, i as int) =~= values_view(args@));
    build_array(realm, base_array)
}

proof fn lemma_concatenated_fails(objects: Seq<ObjectData>, base: Seq<Option<Val>>, args: Seq<Val>, i: int)
    requires
        0 <= i < args.len(),
        args[i] is Undefined || args[i] is Null,
    ensures
        concatenated(objects, base, args) is None,
    decreases args.len(),
{
    if i < args.len() - 1 {
        lemma_concatenated_fails(objects, base, args.drop_last(), i);
    }
}

/// How an element reads in joined text: null and undefined read as nothing.
pub open spec fn element_text(v: Val) -> Seq<char> {
    match v {
        Val::Undefined => Seq::empty(),
        Val::Null => Seq::empty(),
        _ => to_text(v),
    }
}

/// Element texts with `sep` between each two.
pub open spec fn joined(parts: Seq<Val>, sep: Seq<char>) -> Seq<char>
    decreases parts.len(),
{
    if parts.len() == 0 {
        Seq::empty()
    } else if parts.len() == 1 {
        element_text(parts[0])
    } else {
        joined(parts.drop_last(), sep) + sep + element_text(parts.last())
    }
}

/// The separator `join` uses: the argument as text, or a comma where it is
/// missing or undefined.
pub open spec fn separator_of(args: Seq<Value>) -> Seq<char> {
    let s = arg_or(args, 0, Val::Undefined);
    if s is Undefined {
        ","@
    } else {
        to_text(s)
    }
}

fn element_string(v: &Value) -> (r: String)
    ensures
        r@ == element_text(v@),
{
    match v {
        Value::Undefined | Value::Null => String::new(),
        _ => v.coerce_to_string(),
    }
}

/// Joins the resolved elements of the array `this` with the separator that
/// `args` gives.
pub fn join_inner(realm: &Realm, this: Option<ObjectId>, args: &[Value]) -> (r: Result<Value, Error>)
    ensures
        r is Ok,
        r->Ok_0@ == if is_array(realm@, this) {
            Val::String(joined(resolved_values(realm@, this->Some_0), separator_of(args@)))
        } else {
            Val::Undefined
        },
{
    let t = match this {
        Some(t) => t,
        None => return Ok(Value::Undefined),
    };
    if realm.array_storage(t).is_none() {
        return Ok(Value::Undefined);
    }
    let sep_arg = arg_or_undefined(args, 0);
    let separator = if sep_arg.is_undefined() {
        String::from_str(",")
    } else {
        sep_arg.coerce_to_string()
    };
    let all = resolved_contents(realm, t);
    let ghost parts = values_view(all@);
    let mut accum = String::new();
    let mut i: usize = 0;
    while i < all.len()
        invariant
            i <= all@.len(),
            parts == values_view(all@),
            accum@ == joined(parts.subrange(0, i as int), separator@),
        decreases all@.len() - i,
    {
        assert(parts.subrange(0, i as int + 1).drop_last() =~= parts.subrange(0, i as int));
        if i > 0 {
            accum.append(separator.as_str());
        }
        let text = element_string(&all[i]);
        accum.append(text.as_str());
        i = i + 1;
        proof {
            if i == 1 {
                assert(accum@ =~= joined(parts.subrange(0, i as int), separator@));
            }
        }
    }
    assert(parts.subrange(0, i as int) =~= parts);
    Ok(Value::String(accum))
}

/// Implements `Array.join`.
pub fn join(realm: &Realm, this: Option<ObjectId>, args: &[Value]) -> (r: Result<Value, Error>)
    ensures
        r is Ok,
        r->Ok_0@ == if is_array(realm@, this) {
            Val::String(joined(resolved_values(realm@, this->Some_0), separator_of(args@)))
        } else {
            Val::Undefined
        },
{
    join_inner(realm, this, args)
}

/// Implements `Array.toString`: the elements joined with commas.
pub fn to_string(realm: &Realm, this: Option<ObjectId>, args: &[Value]) -> (r: Result<Value, Error>)
    ensures
        r is Ok,
        r->Ok_0@ == if is_array(realm@, this) {
            Val::String(joined(resolved_values(realm@, this->Some_0), ","@))
        } else {
            Val::Undefined
        },
{
    let comma = [Value::String(String::from_str(","))];
    let r = join_inner(realm, this, &comma);
    assert(separator_of(comma@) == ","@);
    r
}

/// Implements `Array.valueOf`: the same text as `toString`.
pub fn value_of(realm: &Realm, this: Option<ObjectId>, args: &[Value]) -> (r: Result<Value, Error>)
    ensures
        r is Ok,
        r->Ok_0@ == if is_array(realm@, this) {
            Val::String(joined(resolved_values(realm@, this->Some_0), ","@))
        } else {
            Val::Undefined
        },
{
    to_string(realm, this, args)
}

/// A found index as a number, or -1.
pub open spec fn index_value(k: int) -> Val {
    if k < 0 {
        Val::Number(Number::Int(-1i64))
    } else {
        Val::Number(Number::Int(#[verifier::truncate] ((k as usize) as i64)))
    }
}

/// The least index at or after `k` whose element strictly equals `needle`,
/// or -1.
pub open spec fn first_match(all: Seq<Val>, needle: Val, k: int) -> int
    decreases all.len() - k,
{
    if k >= all.len() {
        -1
    } else if strict_equal(all[k], needle) {
        k
    } else {
        first_match(all, needle, k + 1)
    }
}

/// The greatest index at or before `k` whose element strictly equals
/// `needle`, or -1.
pub open spec fn last_match(all: Seq<Val>, needle: Val, k: int) -> int
    decreases k + 1,
{
    if k < 0 {
        -1
    } else if k >= all.len() {
        last_match(all, needle, all.len() - 1)
    } else if strict_equal(all[k], needle) {
        k
    } else {
        last_match(all, needle, k - 1)
    }
}

/// Implements `Array.indexOf`: the first index at or after the start
/// argument (default 0) whose resolved element strictly equals the first
/// argument, or -1.
pub fn index_of(realm: &Realm, this: Option<ObjectId>, args: &[Value]) -> (r: Result<Value, Error>)
    ensures
        r is Ok,
        r->Ok_0@ == if is_array(realm@, this) {
            index_value(
                    first_match(
                        resolved_values(realm@, this->Some_0),
                        arg_or(args@, 0, Val::Undefined),
                        to_u32(arg_or(args@, 1, Val::Number(Number::Int(0)))) as int,
                    ),
            )
        } else {
            Val::Undefined
        },
{
    let t = match this {
        Some(t) => t,
        None => return Ok(Value::Undefined),
    };
    if realm.array_storage(t).is_none() {
        return Ok(Value::Undefined);
    }
    let search_val = arg_or_undefined(args, 0);
    let from = if args.len() > 1 {
        args[1].coerce_to_u32()
    } else {
        Value::Number(Number::Int(0)).coerce_to_u32()
    };
    let all = resolved_contents(realm, t);
    let ghost vals = values_view(all@);
    let mut i: usize = from as usize;
    while i < all.len()
        invariant
            vals == values_view(all@),
            vals == resolved_values(realm@, t),
            this == Some(t),
            storage_of(realm@, t) is Some,
            search_val@ == arg_or(args@, 0, Val::Undefined),
            from == to_u32(arg_or(args@, 1, Val::Number(Number::Int(0)))),
            from <= i,
            first_match(vals, search_val@, from as int) == first_match(vals, search_val@, i as int),
        decreases all@.len() - i,
    {
        assert(vals[i as int] == all@[i as int]@);
        if all[i].strict_equals(&search_val) {
            return Ok(Value::Number(Number::Int(#[verifier::truncate] (i as i64))));
        }
        i = i + 1;
    }
    Ok(Value::Number(Number::Int(-1)))
}

/// The default ceiling of `lastIndexOf`.
pub const LAST_INDEX_DEFAULT: i64 = 0x7FFF_FFFF;

/// Implements `Array.lastIndexOf`: the last index at or before the ceiling
/// argument (default 2^31 - 1) whose resolved element strictly equals the
/// first argument, or -1.
pub fn last_index_of(realm: &Realm, this: Option<ObjectId>, args: &[Value]) -> (r: Result<Value, Error>)
    ensures
        r is Ok,
        r->Ok_0@ == if is_array(realm@, this) {
            index_value(
                    last_match(
                        resolved_values(realm@, this->Some_0),
                        arg_or(args@, 0, Val::Undefined),
                        to_u32(arg_or(args@, 1, Val::Number(Number::Int(LAST_INDEX_DEFAULT)))) as int,
                    ),
            )
        } else {
            Val::Undefined
        },
{
    let t = match this {
        Some(t) => t,
        None => return Ok(Value::Undefined),
    };
    if realm.array_storage(t).is_none() {
        return Ok(Value::Undefined);
    }
    let search_val = arg_or_undefined(args, 0);
    let from = if args.len() > 1 {
        args[1].coerce_to_u32()
    } else {
        Value::Number(Number::Int(LAST_INDEX_DEFAULT)).coerce_to_u32()
    };
    let all = resolved_contents(realm, t);
    let ghost vals = values_view(all@);
    let mut i: usize = if (from as usize) < all.len() { from as usize + 1 } else { all.len() };
    assert(last_match(vals, search_val@, from as int) == last_match(vals, search_val@, i - 1));
    while i > 0
        invariant
            vals == values_view(all@),
            vals == resolved_values(realm@, t),
            this == Some(t),
            storage_of(realm@, t) is Some,
            search_val@ == arg_or(args@, 0, Val::Undefined),
            from == to_u32(arg_or(args@, 1, Val::Number(Number::Int(LAST_INDEX_DEFAULT)))),
            i <= all@.len(),
            last_match(vals, search_val@, from as int) == last_match(vals, search_val@, i - 1),
        decreases i,
    {
        i = i - 1;
        assert(vals[i as int] == all@[i as int]@);
        if all[i].strict_equals(&search_val) {
            return Ok(Value::Number(Number::Int(#[verifier::truncate] (i as i64))));
        }
    }
    Ok(Value::Number(Number::Int(-1)))
}

/// Implements `Array.pop`: removes the last slot and returns its value; a
/// hole or an empty array gives the absent-marker value.
pub fn pop(realm: &mut Realm, this: Option<ObjectId>, args: &[Value]) -> (r: Result<Value, Error>)
    ensures
        r is Ok,
        final(realm).spec_array_proto() == old(realm).spec_array_proto(),
        !is_array(old(realm)@, this) ==> final(realm)@ == old(realm)@ && r->Ok_0@ == Val::Undefined,
        is_array(old(realm)@, this) ==> {
            let st = storage_at(old(realm)@, this);
            &&& replaced_storage(
                old(realm)@,
                final(realm)@,
                this->Some_0,
                if st.len() == 0 { st } else { st.drop_last() },
            )
            &&& r->Ok_0@ == if st.len() == 0 { Val::Undefined } else { slot_or_undefined(st.last()) }
        },
{
    if let Some(t) = this {
        if t < realm.object_count() && realm.array_storage(t).is_some() {
            let ghost orig = realm@;
            let mut array = realm.take_storage(t).unwrap();
            let v = array.pop();
            put_back(realm, t, array, Ghost(orig));
            return Ok(v);
        }
    }
    Ok(Value::Undefined)
}

/// Implements `Array.push`: appends each argument.
pub fn push(realm: &mut Realm, this: Option<ObjectId>, args: &[Value]) -> (r: Result<Value, Error>)
    ensures
        r is Ok && r->Ok_0@ == Val::Undefined,
        final(realm).spec_array_proto() == old(realm).spec_array_proto(),
        !is_array(old(realm)@, this) ==> final(realm)@ == old(realm)@,
        is_array(old(realm)@, this) ==> replaced_storage(
            old(realm)@,
            final(realm)@,
            this->Some_0,
            storage_at(old(realm)@, this) + present(values_view(args@)),
        ),
{
    if let Some(t) = this {
        if t < realm.object_count() && realm.array_storage(t).is_some() {
            let ghost orig = realm@;
            let mut array = realm.take_storage(t).unwrap();
            let ghost st0 = array@;
            let mut i: usize = 0;
            while i < args.len()
                invariant
                    i <= args@.len(),
                    array@ =~= st0 + present(values_view(args@).subrange(0, i as int)),
                decreases args@.len() - i,
            {
                array.push(args[i].duplicate());
                i = i + 1;
                assert(array@ =~= st0 + present(values_view(args@).subrange(0, i as int)));
            }
            assert(values_view(args@).subrange(0, i as int) =~= values_view(args@));
            put_back(realm, t, array, Ghost(orig));
        }
    }
    Ok(Value::Undefined)
}

/// Implements `Array.shift`: removes the first slot and returns its value; a
/// hole or an empty array gives the absent-marker value.
pub fn shift(realm: &mut Realm, this: Option<ObjectId>, args: &[Value]) -> (r: Result<Value, Error>)
    ensures
        r is Ok,
        final(realm).spec_array_proto() == old(realm).spec_array_proto(),
        !is_array(old(realm)@, this) ==> final(realm)@ == old(realm)@ && r->Ok_0@ == Val::Undefined,
        is_array(old(realm)@, this) ==> {
            let st = storage_at(old(realm)@, this);
            &&& replaced_storage(
                old(realm)@,
                final(realm)@,
                this->Some_0,
                if st.len() == 0 { st } else { st.drop_first() },
            )
            &&& r->Ok_0@ == if st.len() == 0 { Val::Undefined } else { slot_or_undefined(st[0]) }
        },
{
    if let Some(t) = this {
        if t < realm.object_count() && realm.array_storage(t).is_some() {
            let ghost orig = realm@;
            let mut array = realm.take_storage(t).unwrap();
            let v = array.shift();
            put_back(realm, t, array, Ghost(orig));
            return Ok(v);
        }
    }
    Ok(Value::Undefined)
}

/// Implements `Array.unshift`: inserts the arguments, in order, before the
/// first slot.
pub fn unshift(realm: &mut Realm, this: Option<ObjectId>, args: &[Value]) -> (r: Result<Value, Error>)
    ensures
        r is Ok && r->Ok_0@ == Val::Undefined,
        final(realm).spec_array_proto() == old(realm).spec_array_proto(),
        !is_array(old(realm)@, this) ==> final(realm)@ == old(realm)@,
        is_array(old(realm)@, this) ==> replaced_storage(
            old(realm)@,
            final(realm)@,
            this->Some_0,
            present(values_view(args@)) + storage_at(old(realm)@, this),
        ),
{
    if let Some(t) = this {
        if t < realm.object_count() && realm.array_storage(t).is_some() {
            let ghost orig = realm@;
            let mut array = realm.take_storage(t).unwrap();
            let ghost st0 = array@;
            let mut i: usize = args.len();
            while i > 0
                invariant
                    i <= args@.len(),
                    array@ =~= present(values_view(args@).subrange(i as int, args@.len() as int)) + st0,
                decreases i,
            {
                i = i - 1;
                array.unshift(args[i].duplicate());
                assert(array@ =~= present(values_view(args@).subrange(i as int, args@.len() as int)) + st0);
            }
            assert(values_view(args@).subrange(0, args@.len() as int) =~= values_view(args@));
            put_back(realm, t, array, Ghost(orig));
        }
    }
    Ok(Value::Undefined)
}

pub open spec fn reversed(s: Seq<Option<Val>>) -> Seq<Option<Val>> {
    Seq::new(s.len(), |i: int| s[s.len() - 1 - i])
}

/// Implements `Array.reverse`, in place: slot `i` takes what slot
/// `length - 1 - i` held, holes included. Returns the receiver.
pub fn reverse(realm: &mut Realm, this: Option<ObjectId>, args: &[Value]) -> (r: Result<Value, Error>)
    ensures
        r is Ok,
        final(realm).spec_array_proto() == old(realm).spec_array_proto(),
        !is_array(old(realm)@, this) ==> final(realm)@ == old(realm)@ && r->Ok_0@ == Val::Undefined,
        is_array(old(realm)@, this) ==> r->Ok_0@ == Val::Object(this->Some_0) && replaced_storage(
            old(realm)@,
            final(realm)@,
            this->Some_0,
            reversed(storage_at(old(realm)@, this)),
        ),
{
    let t = match this {
        Some(t) => t,
        None => return Ok(Value::Undefined),
    };
    if t >= realm.object_count() || realm.array_storage(t).is_none() {
        return Ok(Value::Undefined);
    }
    let ghost orig = realm@;
    let array = realm.take_storage(t).unwrap();
    let ghost st = array@;
    let n = array.length();
    let mut new_array = ArrayStorage::new(0);
    let mut k: usize = n;
    while k > 0
        invariant
            k <= n,
            n == st.len(),
            array@ == st,
            new_array@ =~= reversed(st).subrange(0, (n - k) as int),
        decreases k,
    {
        k = k - 1;
        match array.get(k) {
            Some(value) => new_array.push(value),
            None => new_array.push_hole(),
        }
        assert(new_array@ =~= reversed(st).subrange(0, (n - k) as int));
    }
    assert(reversed(st).subrange(0, n as int) =~= reversed(st));
    put_back(realm, t, new_array, Ghost(orig));
    Ok(Value::Object(t))
}

} // verus!
