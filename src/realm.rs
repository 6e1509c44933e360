//! The objects that array methods read and write: each has an optional
//! prototype, named or indexed own properties, and, for arrays, a sparse
//! storage. Property reads walk the prototype chain.

use vstd::prelude::*;
use vstd::string::*;
use crate::storage::{slot_view, ArrayStorage};
use crate::value::{Number, ObjectId, Val, Value};

verus! {

/// A property name: an array index, or any other name.
#[derive(Clone, Debug, PartialEq)]
pub enum PropKey {
    Index(usize),
    Name(String),
}

pub enum KeyModel {
    Index(usize),
    Name(Seq<char>),
}

impl View for PropKey {
    type V = KeyModel;

    open spec fn view(&self) -> KeyModel {
        match self {
            PropKey::Index(i) => KeyModel::Index(*i),
            PropKey::Name(s) => KeyModel::Name(s@),
        }
    }
}

/// One object.
#[derive(Clone, Debug, PartialEq)]
pub struct ObjectData {
    pub proto: Option<ObjectId>,
    pub array: Option<ArrayStorage>,
    pub props: Vec<(PropKey, Value)>,
}

/// The objects of one runtime, addressed by [`ObjectId`]. Numbers, strings
/// and booleans have no wrapper objects here: they are never receivers and
/// have no properties but those that methods state for them.
#[derive(Clone, Debug, PartialEq)]
pub struct Realm {
    objects: Vec<ObjectData>,
    array_proto: Option<ObjectId>,
}

impl View for Realm {
    type V = Seq<ObjectData>;

    closed spec fn view(&self) -> Seq<ObjectData> {
        self.objects@
    }
}

/// The first own named or indexed property under `key`.
pub open spec fn find_prop(props: Seq<(PropKey, Value)>, key: KeyModel) -> Option<Val>
    decreases props.len(),
{
    if props.len() == 0 {
        None
    } else if props[0].0@ == key {
        Some(props[0].1@)
    } else {
        find_prop(props.drop_first(), key)
    }
}

/// What an object holds itself under `key`: a present array slot, an
/// array's length, or an own property.
pub open spec fn own_property(o: ObjectData, key: KeyModel) -> Option<Val> {
    match (o.array, key) {
        (Some(st), KeyModel::Index(i)) if i < st@.len() && st@[i as int] is Some => st@[i as int],
        (Some(st), KeyModel::Name(n)) if n == "length"@ => Some(
            Val::Number(Number::Int(st@.len() as i64)),
        ),
        _ => find_prop(o.props@, key),
    }
}

/// A property read from `obj` along its prototype chain, following at most
/// `fuel` objects; a name that nothing on the chain holds reads as the
/// absent-marker value.
pub open spec fn lookup(objects: Seq<ObjectData>, obj: ObjectId, key: KeyModel, fuel: nat) -> Val
    decreases fuel,
{
    if fuel == 0 || obj >= objects.len() {
        Val::Undefined
    } else {
        match own_property(objects[obj as int], key) {
            Some(v) => v,
            None => match objects[obj as int].proto {
                Some(p) => lookup(objects, p, key, (fuel - 1) as nat),
                None => Val::Undefined,
            },
        }
    }
}

/// A property read: the chain is followed for at most as many objects as the
/// realm holds, so a cyclic chain ends.
pub open spec fn get_property_of(objects: Seq<ObjectData>, obj: ObjectId, key: KeyModel) -> Val {
    lookup(objects, obj, key, objects.len())
}

/// Each object's prototype was created before it, so prototype chains end.
pub open spec fn well_formed(objects: Seq<ObjectData>) -> bool {
    forall|o: int|
        0 <= o < objects.len() ==> match (#[trigger] objects[o]).proto {
            Some(p) => p < o,
            None => true,
        }
}

/// In a well-formed realm a read needs no more steps than the object's own
/// handle: any larger step bound gives the same value.
pub proof fn lemma_lookup_fuel(objects: Seq<ObjectData>, obj: ObjectId, key: KeyModel, f1: nat, f2: nat)
    requires
        well_formed(objects),
        obj < objects.len(),
        f1 > obj,
        f2 > obj,
    ensures
        lookup(objects, obj, key, f1) == lookup(objects, obj, key, f2),
    decreases obj,
{
    if own_property(objects[obj as int], key) is None {
        if let Some(p) = objects[obj as int].proto {
            assert(p < obj);
            lemma_lookup_fuel(objects, p, key, (f1 - 1) as nat, (f2 - 1) as nat);
        }
    }
}

/// In a well-formed realm, adding an object changes no read of an object
/// that was there before.
pub proof fn lemma_lookup_push(objects: Seq<ObjectData>, d: ObjectData, obj: ObjectId, key: KeyModel, f: nat)
    requires
        well_formed(objects),
        obj < objects.len(),
    ensures
        lookup(objects.push(d), obj, key, f) == lookup(objects, obj, key, f),
    decreases f,
{
    assert(objects.push(d)[obj as int] == objects[obj as int]);
    if f > 0 && own_property(objects[obj as int], key) is None {
        if let Some(p) = objects[obj as int].proto {
            lemma_lookup_push(objects, d, p, key, (f - 1) as nat);
        }
    }
}

/// In a well-formed realm, a property read of an existing object gives the
/// same value after another object is added.
pub proof fn lemma_get_property_push(objects: Seq<ObjectData>, d: ObjectData, obj: ObjectId, key: KeyModel)
    requires
        well_formed(objects),
        obj < objects.len(),
    ensures
        get_property_of(objects.push(d), obj, key) == get_property_of(objects, obj, key),
{
    lemma_lookup_push(objects, d, obj, key, objects.len() + 1);
    lemma_lookup_fuel(objects, obj, key, objects.len() + 1, objects.len());
}

/// The storage of `obj`, where `obj` is an array.
pub open spec fn storage_of(objects: Seq<ObjectData>, obj: ObjectId) -> Option<Seq<Option<Val>>> {
    if obj < objects.len() {
        match objects[obj as int].array {
            Some(st) => Some(st@),
            None => None,
        }
    } else {
        None
    }
}

/// `objects` with the storage of `obj` replaced by `st`.
pub open spec fn with_storage(objects: Seq<ObjectData>, obj: ObjectId, st: ArrayStorage) -> Seq<ObjectData> {
    objects.update(obj as int, ObjectData { array: Some(st), ..objects[obj as int] })
}

pub fn keys_equal(a: &PropKey, b: &PropKey) -> (r: bool)
    ensures
        r == (a@ == b@),
{
    match (a, b) {
        (PropKey::Index(x), PropKey::Index(y)) => *x == *y,
        (PropKey::Name(x), PropKey::Name(y)) => x.eq(y),
        _ => false,
    }
}

fn find_own_prop(props: &Vec<(PropKey, Value)>, key: &PropKey) -> (r: Option<Value>)
    ensures
        slot_view(r) == find_prop(props@, key@),
{
    let mut i: usize = 0;
    assert(props@.subrange(0, props@.len() as int) =~= props@);
    while i < props.len()
        invariant
            i <= props@.len(),
            find_prop(props@, key@) == find_prop(props@.subrange(i as int, props@.len() as int), key@),
        decreases props@.len() - i,
    {
        let ghost rest = props@.subrange(i as int, props@.len() as int);
        assert(rest.drop_first() =~= props@.subrange(i + 1, props@.len() as int));
        if keys_equal(&props[i].0, key) {
            return Some(props[i].1.duplicate());
        }
        i = i + 1;
    }
    None
}

fn own_property_of(o: &ObjectData, key: &PropKey) -> (r: Option<Value>)
    ensures
        slot_view(r) == own_property(*o, key@),
{
    match (&o.array, key) {
        (Some(st), PropKey::Index(i)) => {
            if *i < st.length() {
                let slot = st.get(*i);
                if slot.is_some() {
                    return slot;
                }
            }
            find_own_prop(&o.props, key)
        },
        (Some(st), PropKey::Name(n)) => {
            let length_name = String::from_str("length");
            if n.eq(&length_name) {
                Some(Value::Number(Number::Int(st.length() as i64)))
            } else {
                find_own_prop(&o.props, key)
            }
        },
        _ => find_own_prop(&o.props, key),
    }
}

impl ObjectData {
    /// An ordinary object with no own properties.
    pub fn plain(proto: Option<ObjectId>) -> (r: ObjectData)
        ensures
            r.proto == proto,
            r.array is None,
            r.props@.len() == 0,
    {
        ObjectData { proto, array: None, props: Vec::new() }
    }

    /// An array object over `storage`.
    pub fn array(storage: ArrayStorage, proto: Option<ObjectId>) -> (r: ObjectData)
        ensures
            r.proto == proto,
            r.array == Some(storage),
            r.props@.len() == 0,
    {
        ObjectData { proto, array: Some(storage), props: Vec::new() }
    }
}

impl Realm {
    pub fn new() -> (r: Realm)
        ensures
            r@.len() == 0,
    {
        Realm { objects: Vec::new(), array_proto: None }
    }

    /// The prototype that newly built arrays get.
    pub closed spec fn spec_array_proto(&self) -> Option<ObjectId> {
        self.array_proto
    }

    pub fn array_proto(&self) -> (r: Option<ObjectId>)
        ensures
            r == self.spec_array_proto(),
    {
        self.array_proto
    }

    pub fn set_array_proto(&mut self, proto: Option<ObjectId>)
        ensures
            final(self)@ == old(self)@,
            final(self).spec_array_proto() == proto,
    {
        self.array_proto = proto;
    }

    pub fn object_count(&self) -> (r: usize)
        ensures
            r == self@.len(),
    {
        self.objects.len()
    }

    /// Adds an object and yields its handle.
    pub fn allocate(&mut self, data: ObjectData) -> (r: ObjectId)
        ensures
            r == old(self)@.len(),
            r < usize::MAX,
            final(self)@ == old(self)@.push(data),
            final(self).spec_array_proto() == old(self).spec_array_proto(),
            well_formed(old(self)@) && (data.proto is Some ==> data.proto->Some_0 < old(self)@.len())
                ==> well_formed(final(self)@),
    {
        let id = self.objects.len();
        self.objects.push(data);
        // Reading the length after the push shows the handle is below usize::MAX.
        let _count = self.objects.len();
        assert forall|o: int| 0 <= o < id implies #[trigger] self@[o] == old(self)@[o] by {}
        id
    }

    /// Reads `key` from `obj` along its prototype chain.
    pub fn get_property(&self, obj: ObjectId, key: &PropKey) -> (r: Value)
        ensures
            r@ == get_property_of(self@, obj, key@),
    {
        let mut cur = obj;
        let mut fuel = self.objects.len();
        loop
            invariant
                get_property_of(self@, obj, key@) == lookup(self@, cur, key@, fuel as nat),
            decreases fuel,
        {
            if fuel == 0 || cur >= self.objects.len() {
                return Value::Undefined;
            }
            let data = &self.objects[cur];
            match own_property_of(data, key) {
                Some(v) => {
                    return v;
                },
                None => match data.proto {
                    Some(p) => {
                        cur = p;
                        fuel = fuel - 1;
                    },
                    None => {
                        return Value::Undefined;
                    },
                },
            }
        }
    }

    /// The prototype of `obj`.
    pub fn proto(&self, obj: ObjectId) -> (r: Option<ObjectId>)
        ensures
            r == if obj < self@.len() {
                self@[obj as int].proto
            } else {
                None
            },
    {
        if obj < self.objects.len() {
            self.objects[obj].proto
        } else {
            None
        }
    }

    /// The storage of `obj`, where it is an array.
    pub fn array_storage(&self, obj: ObjectId) -> (r: Option<&ArrayStorage>)
        ensures
            match r {
                Some(st) => storage_of(self@, obj) == Some(st@),
                None => storage_of(self@, obj) is None,
            },
    {
        if obj < self.objects.len() {
            self.objects[obj].array.as_ref()
        } else {
            None
        }
    }

    /// Moves the storage out of `obj`, leaving it without one until
    /// [`Realm::replace_storage`] puts one back.
    pub fn take_storage(&mut self, obj: ObjectId) -> (r: Option<ArrayStorage>)
        requires
            obj < old(self)@.len(),
        ensures
            match r {
                Some(st) => storage_of(old(self)@, obj) == Some(st@),
                None => storage_of(old(self)@, obj) is None,
            },
            final(self)@ == old(self)@.update(obj as int, ObjectData { array: None, ..old(self)@[obj as int] }),
            final(self).spec_array_proto() == old(self).spec_array_proto(),
    {
        let data = &mut self.objects[obj];
        data.array.take()
    }

    /// Replaces the storage of the array `obj`.
    pub fn replace_storage(&mut self, obj: ObjectId, st: ArrayStorage)
        requires
            obj < old(self)@.len(),
        ensures
            final(self)@ == with_storage(old(self)@, obj, st),
            final(self).spec_array_proto() == old(self).spec_array_proto(),
    {
        let data = &mut self.objects[obj];
        data.array = Some(st);
    }
}

} // verus!
