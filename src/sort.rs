//! Sorting: option flags, the built-in comparators, and the engine behind
//! `Array.sort` and `Array.sortOn`.

use vstd::prelude::*;
use std::cmp::Ordering;
use crate::array::{arg_or, arg_or_undefined, build_array, built_array, is_array, replaced_storage, resolved_contents, resolved_values, values_view};
use crate::host::{
    all_but_last_ok, all_ok, args_view, calls_since, chained, extends, lemma_chained_push, lemma_log_grows, CallRecord, Host,
    Invoke,
};
use crate::storage::{slot_view, ArrayStorage};
use crate::realm::{get_property_of, storage_of, KeyModel, ObjectData, PropKey, Realm};
use crate::value::{to_number, to_text, Error, Number, ObjectId, Val, Value};
use vstd::string::*;

verus! {

/// Compare strings without regard to case.
pub const CASE_INSENSITIVE: u8 = 1;

/// Reverse the order of sorting.
pub const DESCENDING: u8 = 2;

/// Decline to sort an array that holds two equivalent values.
pub const UNIQUE_SORT: u8 = 4;

/// Yield the sorted order as a list of indices; leave the array as it is.
pub const RETURN_INDEXED_ARRAY: u8 = 8;

/// Compare values as numbers.
pub const NUMERIC: u8 = 16;

/// All the flags above.
pub const ALL_FLAGS: u8 = 31;

/// A set of sort flags.
#[derive(Clone, Copy, Debug, PartialEq, Eq)]
pub struct SortOptions {
    bits: u8,
}

impl View for SortOptions {
    type V = u8;

    closed spec fn view(&self) -> u8 {
        self.bits
    }
}

pub open spec fn has_flag(bits: u8, flag: u8) -> bool {
    bits & flag == flag
}

impl SortOptions {
    /// Keeps the known flags of `bits` and drops the rest.
    pub fn from_bits_truncate(bits: u8) -> (r: SortOptions)
        ensures
            r@ == bits & ALL_FLAGS,
    {
        SortOptions { bits: bits & ALL_FLAGS }
    }

    pub fn empty() -> (r: SortOptions)
        ensures
            r@ == 0,
    {
        SortOptions { bits: 0 }
    }

    pub fn bits(&self) -> (r: u8)
        ensures
            r == self@,
    {
        self.bits
    }

    /// Whether every flag of `flag` is set.
    pub fn contains(&self, flag: u8) -> (r: bool)
        ensures
            r == has_flag(self@, flag),
    {
        self.bits & flag == flag
    }

    /// The flags set in both.
    pub fn intersection(&self, mask: u8) -> (r: SortOptions)
        ensures
            r@ == self@ & mask,
    {
        SortOptions { bits: self.bits & mask }
    }
}

pub open spec fn reverse_order(o: Ordering) -> Ordering {
    match o {
        Ordering::Less => Ordering::Greater,
        Ordering::Equal => Ordering::Equal,
        Ordering::Greater => Ordering::Less,
    }
}

pub fn reversed_order(o: Ordering) -> (r: Ordering)
    ensures
        r == reverse_order(o),
{
    match o {
        Ordering::Less => Ordering::Greater,
        Ordering::Equal => Ordering::Equal,
        Ordering::Greater => Ordering::Less,
    }
}

/// Lexicographic order of character sequences, by code point.
pub open spec fn lex_order(s: Seq<char>, t: Seq<char>) -> Ordering
    decreases s.len(),
{
    if s.len() == 0 {
        if t.len() == 0 {
            Ordering::Equal
        } else {
            Ordering::Less
        }
    } else if t.len() == 0 {
        Ordering::Greater
    } else if s[0] < t[0] {
        Ordering::Less
    } else if s[0] > t[0] {
        Ordering::Greater
    } else {
        lex_order(s.drop_first(), t.drop_first())
    }
}

/// Numeric order, with not-a-number after every other number and equal to
/// itself.
pub open spec fn numeric_order(x: Number, y: Number) -> Ordering {
    match (x, y) {
        (Number::NaN, Number::NaN) => Ordering::Equal,
        (Number::NaN, _) => Ordering::Greater,
        (_, Number::NaN) => Ordering::Less,
        (Number::Int(a), Number::Int(b)) => if a < b {
            Ordering::Less
        } else if a > b {
            Ordering::Greater
        } else {
            Ordering::Equal
        },
    }
}

/// What `str::to_lowercase` makes of a string.
pub uninterp spec fn lower_of(s: Seq<char>) -> Seq<char>;

/// Relies on `str::to_lowercase`: the lowercase mapping of each character,
/// which depends on the characters alone.
#[verifier::external_body]
fn lowercase(s: &str) -> (r: String)
    ensures
        r@ == lower_of(s@),
{
    s.to_lowercase()
}

/// Compares two strings lexicographically by code point.
pub fn compare_text(a: &str, b: &str) -> (r: Ordering)
    ensures
        r == lex_order(a@, b@),
{
    let n = a.unicode_len();
    let m = b.unicode_len();
    let mut i: usize = 0;
    assert(a@.skip(0) =~= a@ && b@.skip(0) =~= b@);
    while i < n && i < m
        invariant
            n == a@.len(),
            m == b@.len(),
            i <= n,
            i <= m,
            lex_order(a@, b@) == lex_order(a@.skip(i as int), b@.skip(i as int)),
        decreases n - i,
    {
        let x = a.get_char(i);
        let y = b.get_char(i);
        assert(a@.skip(i as int)[0] == x && b@.skip(i as int)[0] == y);
        if x < y {
            return Ordering::Less;
        }
        if x > y {
            return Ordering::Greater;
        }
        assert(a@.skip(i as int).drop_first() =~= a@.skip(i as int + 1));
        assert(b@.skip(i as int).drop_first() =~= b@.skip(i as int + 1));
        i = i + 1;
    }
    if i == n {
        if i == m {
            Ordering::Equal
        } else {
            Ordering::Less
        }
    } else {
        Ordering::Greater
    }
}

/// The comparisons that need no user code.
#[derive(Clone, Copy, Debug, PartialEq, Eq, Structural)]
pub enum BasicKind {
    Numeric,
    CaseSensitive,
    CaseInsensitive,
}

/// The built-in comparison that a set of flags selects: numeric before
/// case-insensitive, case-sensitive text otherwise.
pub open spec fn kind_of(bits: u8) -> BasicKind {
    if has_flag(bits, NUMERIC) {
        BasicKind::Numeric
    } else if has_flag(bits, CASE_INSENSITIVE) {
        BasicKind::CaseInsensitive
    } else {
        BasicKind::CaseSensitive
    }
}

pub fn kind_for(options: SortOptions) -> (r: BasicKind)
    ensures
        r == kind_of(options@),
{
    if options.contains(NUMERIC) {
        BasicKind::Numeric
    } else if options.contains(CASE_INSENSITIVE) {
        BasicKind::CaseInsensitive
    } else {
        BasicKind::CaseSensitive
    }
}

pub open spec fn basic_order(kind: BasicKind, a: Val, b: Val) -> Ordering {
    match kind {
        BasicKind::Numeric => numeric_order(to_number(a), to_number(b)),
        BasicKind::CaseSensitive => lex_order(to_text(a), to_text(b)),
        BasicKind::CaseInsensitive => lex_order(lower_of(to_text(a)), lower_of(to_text(b))),
    }
}

/// Compares the text of two values, case-sensitively.
pub fn compare_string_case_sensitive(a: &Value, b: &Value) -> (r: Result<Ordering, Error>)
    ensures
        r == Ok::<Ordering, Error>(basic_order(BasicKind::CaseSensitive, a@, b@)),
{
    let string_a = a.coerce_to_string();
    let string_b = b.coerce_to_string();
    Ok(compare_text(string_a.as_str(), string_b.as_str()))
}

/// Compares the lowercased text of two values.
pub fn compare_string_case_insensitive(a: &Value, b: &Value) -> (r: Result<Ordering, Error>)
    ensures
        r == Ok::<Ordering, Error>(basic_order(BasicKind::CaseInsensitive, a@, b@)),
{
    let string_a = lowercase(a.coerce_to_string().as_str());
    let string_b = lowercase(b.coerce_to_string().as_str());
    Ok(compare_text(string_a.as_str(), string_b.as_str()))
}

/// Compares two values as numbers; not-a-number sorts after every number.
pub fn compare_numeric(a: &Value, b: &Value) -> (r: Result<Ordering, Error>)
    ensures
        r == Ok::<Ordering, Error>(basic_order(BasicKind::Numeric, a@, b@)),
{
    let num_a = a.coerce_to_number();
    let num_b = b.coerce_to_number();
    match (num_a, num_b) {
        (Number::NaN, Number::NaN) => Ok(Ordering::Equal),
        (Number::NaN, _) => Ok(Ordering::Greater),
        (_, Number::NaN) => Ok(Ordering::Less),
        (Number::Int(x), Number::Int(y)) => if x < y {
            Ok(Ordering::Less)
        } else if x > y {
            Ok(Ordering::Greater)
        } else {
            Ok(Ordering::Equal)
        },
    }
}

/// Compares by the built-in comparison `kind`.
pub fn compare_basic(kind: BasicKind, a: &Value, b: &Value) -> (r: Ordering)
    ensures
        r == basic_order(kind, a@, b@),
{
    let r = match kind {
        BasicKind::Numeric => compare_numeric(a, b),
        BasicKind::CaseSensitive => compare_string_case_sensitive(a, b),
        BasicKind::CaseInsensitive => compare_string_case_insensitive(a, b),
    };
    r.unwrap()
}

pub proof fn lemma_lex_antisymmetric(s: Seq<char>, t: Seq<char>)
    ensures
        lex_order(s, t) == reverse_order(lex_order(t, s)),
    decreases s.len(),
{
    if s.len() > 0 && t.len() > 0 && s[0] == t[0] {
        lemma_lex_antisymmetric(s.drop_first(), t.drop_first());
    }
}

pub proof fn lemma_lex_equal(s: Seq<char>, t: Seq<char>)
    ensures
        lex_order(s, t) == Ordering::Equal <==> s == t,
    decreases s.len(),
{
    if s.len() > 0 && t.len() > 0 {
        if s[0] == t[0] {
            lemma_lex_equal(s.drop_first(), t.drop_first());
            if s.drop_first() == t.drop_first() {
                assert(s =~= t) by {
                    assert forall|i: int| 0 <= i < s.len() implies s[i] == t[i] by {
                        if i > 0 {
                            assert(s[i] == s.drop_first()[i - 1]);
                            assert(t[i] == t.drop_first()[i - 1]);
                        }
                    }
                }
            }
        } else {
            assert(s[0] < t[0] || s[0] > t[0]);
        }
    } else if s.len() > 0 || t.len() > 0 {
        assert(s.len() != t.len());
    } else {
        assert(s =~= t);
    }
}

pub proof fn lemma_lex_transitive(s: Seq<char>, t: Seq<char>, u: Seq<char>)
    requires
        lex_order(s, t) == Ordering::Less,
        lex_order(t, u) == Ordering::Less,
    ensures
        lex_order(s, u) == Ordering::Less,
    decreases s.len(),
{
    if s.len() > 0 && t.len() > 0 && u.len() > 0 && s[0] == t[0] && t[0] == u[0] {
        lemma_lex_transitive(s.drop_first(), t.drop_first(), u.drop_first());
    }
}

pub proof fn lemma_basic_antisymmetric(kind: BasicKind, a: Val, b: Val)
    ensures
        basic_order(kind, a, b) == reverse_order(basic_order(kind, b, a)),
{
    match kind {
        BasicKind::Numeric => {},
        BasicKind::CaseSensitive => lemma_lex_antisymmetric(to_text(a), to_text(b)),
        BasicKind::CaseInsensitive => lemma_lex_antisymmetric(lower_of(to_text(a)), lower_of(to_text(b))),
    }
}

/// Values that compare equal compare alike with every third value.
pub proof fn lemma_basic_equal(kind: BasicKind, a: Val, b: Val, c: Val)
    requires
        basic_order(kind, a, b) == Ordering::Equal,
    ensures
        basic_order(kind, a, c) == basic_order(kind, b, c),
        basic_order(kind, c, a) == basic_order(kind, c, b),
{
    match kind {
        BasicKind::Numeric => {},
        BasicKind::CaseSensitive => lemma_lex_equal(to_text(a), to_text(b)),
        BasicKind::CaseInsensitive => lemma_lex_equal(lower_of(to_text(a)), lower_of(to_text(b))),
    }
}

pub proof fn lemma_basic_transitive(kind: BasicKind, a: Val, b: Val, c: Val)
    requires
        basic_order(kind, a, b) == Ordering::Less,
        basic_order(kind, b, c) == Ordering::Less,
    ensures
        basic_order(kind, a, c) == Ordering::Less,
{
    match kind {
        BasicKind::Numeric => {},
        BasicKind::CaseSensitive => lemma_lex_transitive(to_text(a), to_text(b), to_text(c)),
        BasicKind::CaseInsensitive => lemma_lex_transitive(
            lower_of(to_text(a)),
            lower_of(to_text(b)),
            lower_of(to_text(c)),
        ),
    }
}

/// One field of a `sortOn` comparison, with its own flags.
#[derive(Clone, Debug, PartialEq)]
pub struct SortField {
    pub name: String,
    pub options: SortOptions,
}

/// The comparison a sort uses, chosen once per call.
#[derive(Clone, Debug, PartialEq)]
pub enum Comparator {
    /// A built-in comparison of the values themselves.
    Basic(BasicKind),
    /// Field by field, each by its own flags, the first unequal field
    /// deciding.
    Fields(Vec<SortField>),
    /// A user function, whose numeric result's sign gives the order.
    Callback(Value),
}

/// The model of a [`SortField`].
pub struct FieldModel {
    pub name: Seq<char>,
    pub bits: u8,
}

impl View for SortField {
    type V = FieldModel;

    open spec fn view(&self) -> FieldModel {
        FieldModel { name: self.name@, bits: self.options@ }
    }
}

/// The model of a [`Comparator`].
pub enum ComparatorModel {
    Basic(BasicKind),
    Fields(Seq<FieldModel>),
    Callback,
}

impl View for Comparator {
    type V = ComparatorModel;

    open spec fn view(&self) -> ComparatorModel {
        match self {
            Comparator::Basic(k) => ComparatorModel::Basic(*k),
            Comparator::Fields(fs) => ComparatorModel::Fields(fs@.map_values(|f: SortField| f@)),
            Comparator::Callback(_) => ComparatorModel::Callback,
        }
    }
}

/// A field of a value: a property read on an object; the `length` of a
/// string. The realm has no wrapper objects for numbers, strings or
/// booleans, so no other field of theirs is found.
pub open spec fn field_value(objects: Seq<ObjectData>, v: Val, name: Seq<char>) -> Val {
    match v {
        Val::Object(o) => get_property_of(objects, o, KeyModel::Name(name)),
        Val::String(s) => if name == "length"@ {
            Val::Number(Number::Int(#[verifier::truncate] ((s.len() as usize) as i64)))
        } else {
            Val::Undefined
        },
        _ => Val::Undefined,
    }
}

fn read_field(realm: &Realm, v: &Value, key: &PropKey) -> (r: Value)
    ensures
        key@ is Name ==> r@ == field_value(realm@, v@, key@->Name_0),
{
    match v {
        Value::Object(o) => realm.get_property(*o, key),
        Value::String(s) => match key {
            PropKey::Name(n) => {
                let length_name = String::from_str("length");
                if n.eq(&length_name) {
                    let len = s.as_str().unicode_len();
                    Value::Number(Number::Int(#[verifier::truncate] (len as i64)))
                } else {
                    Value::Undefined
                }
            },
            PropKey::Index(_) => Value::Undefined,
        },
        _ => Value::Undefined,
    }
}

pub open spec fn field_order(objects: Seq<ObjectData>, f: FieldModel, a: Val, b: Val) -> Ordering {
    basic_order(kind_of(f.bits), field_value(objects, a, f.name), field_value(objects, b, f.name))
}

/// Field by field: the first field that does not compare equal decides, in
/// reverse where that field is descending.
pub open spec fn fields_order(objects: Seq<ObjectData>, fields: Seq<FieldModel>, a: Val, b: Val) -> Ordering
    decreases fields.len(),
{
    if fields.len() == 0 {
        Ordering::Equal
    } else {
        let o = field_order(objects, fields[0], a, b);
        if o == Ordering::Equal {
            fields_order(objects, fields.drop_first(), a, b)
        } else if has_flag(fields[0].bits, DESCENDING) {
            reverse_order(o)
        } else {
            o
        }
    }
}

/// The order a comparator that runs no user code gives. A comparison
/// function has no such order: what it answers is recorded call by call
/// (see [`logged_order`]), so every use of this function is guarded against
/// that case.
pub open spec fn comparator_order(objects: Seq<ObjectData>, cmp: ComparatorModel, a: Val, b: Val) -> Ordering {
    match cmp {
        ComparatorModel::Basic(k) => basic_order(k, a, b),
        ComparatorModel::Fields(fs) => fields_order(objects, fs, a, b),
        ComparatorModel::Callback => Ordering::Equal,
    }
}

/// The order of two sorted entries: two absent-marker values are equal, one
/// sorts after any other value, and otherwise the comparator decides,
/// reversed where `descending`.
#[verifier::opaque]
pub open spec fn entry_order(objects: Seq<ObjectData>, cmp: ComparatorModel, descending: bool, a: Val, b: Val) -> Ordering {
    if a is Undefined && b is Undefined {
        Ordering::Equal
    } else if a is Undefined {
        Ordering::Greater
    } else if b is Undefined {
        Ordering::Less
    } else if descending {
        reverse_order(comparator_order(objects, cmp, a, b))
    } else {
        comparator_order(objects, cmp, a, b)
    }
}

/// A field-wise comparison of a null element fails: null has no fields to
/// read.
pub open spec fn compare_fails(cmp: ComparatorModel, a: Val, b: Val) -> bool {
    &&& cmp is Fields
    &&& cmp->Fields_0.len() > 0
    &&& !(a is Undefined) && !(b is Undefined)
    &&& (a is Null || b is Null)
}

pub proof fn lemma_fields_antisymmetric(objects: Seq<ObjectData>, fields: Seq<FieldModel>, a: Val, b: Val)
    ensures
        fields_order(objects, fields, a, b) == reverse_order(fields_order(objects, fields, b, a)),
    decreases fields.len(),
{
    if fields.len() > 0 {
        let f = fields[0];
        lemma_basic_antisymmetric(kind_of(f.bits), field_value(objects, a, f.name), field_value(objects, b, f.name));
        lemma_fields_antisymmetric(objects, fields.drop_first(), a, b);
    }
}

pub proof fn lemma_fields_equal(objects: Seq<ObjectData>, fields: Seq<FieldModel>, a: Val, b: Val, c: Val)
    requires
        fields_order(objects, fields, a, b) == Ordering::Equal,
    ensures
        fields_order(objects, fields, a, c) == fields_order(objects, fields, b, c),
    decreases fields.len(),
{
    if fields.len() > 0 {
        let f = fields[0];
        let k = kind_of(f.bits);
        let (fa, fb, fc) = (field_value(objects, a, f.name), field_value(objects, b, f.name), field_value(objects, c, f.name));
        lemma_basic_equal(k, fa, fb, fc);
        lemma_fields_equal(objects, fields.drop_first(), a, b, c);
    }
}

pub proof fn lemma_fields_transitive(objects: Seq<ObjectData>, fields: Seq<FieldModel>, a: Val, b: Val, c: Val)
    requires
        fields_order(objects, fields, a, b) == Ordering::Less,
        fields_order(objects, fields, b, c) == Ordering::Less,
    ensures
        fields_order(objects, fields, a, c) == Ordering::Less,
    decreases fields.len(),
{
    let f = fields[0];
    let k = kind_of(f.bits);
    let (fa, fb, fc) = (field_value(objects, a, f.name), field_value(objects, b, f.name), field_value(objects, c, f.name));
    let x = basic_order(k, fa, fb);
    let y = basic_order(k, fb, fc);
    if x == Ordering::Equal {
        lemma_basic_equal(k, fa, fb, fc);
        if y == Ordering::Equal {
            lemma_fields_transitive(objects, fields.drop_first(), a, b, c);
        }
    } else if y == Ordering::Equal {
        lemma_basic_equal(k, fb, fc, fa);
    } else if x == Ordering::Less {
        lemma_basic_transitive(k, fa, fb, fc);
    } else {
        lemma_basic_antisymmetric(k, fa, fb);
        lemma_basic_antisymmetric(k, fb, fc);
        lemma_basic_antisymmetric(k, fa, fc);
        lemma_basic_transitive(k, fc, fb, fa);
    }
}

pub proof fn lemma_entry_antisymmetric(objects: Seq<ObjectData>, cmp: ComparatorModel, d: bool, a: Val, b: Val)
    requires
        !(cmp is Callback),
    ensures
        entry_order(objects, cmp, d, a, b) == reverse_order(entry_order(objects, cmp, d, b, a)),
{
    reveal(entry_order);
    match cmp {
        ComparatorModel::Basic(k) => lemma_basic_antisymmetric(k, a, b),
        ComparatorModel::Fields(fs) => lemma_fields_antisymmetric(objects, fs, a, b),
        ComparatorModel::Callback => {},
    }
}

pub proof fn lemma_entry_equal(objects: Seq<ObjectData>, cmp: ComparatorModel, d: bool, a: Val, b: Val, c: Val)
    requires
        !(cmp is Callback),
        entry_order(objects, cmp, d, a, b) == Ordering::Equal,
    ensures
        entry_order(objects, cmp, d, a, c) == entry_order(objects, cmp, d, b, c),
{
    reveal(entry_order);
    if !(a is Undefined) && !(b is Undefined) {
        match cmp {
            ComparatorModel::Basic(k) => lemma_basic_equal(k, a, b, c),
            ComparatorModel::Fields(fs) => lemma_fields_equal(objects, fs, a, b, c),
            ComparatorModel::Callback => {},
        }
    }
}

pub proof fn lemma_entry_transitive(objects: Seq<ObjectData>, cmp: ComparatorModel, d: bool, a: Val, b: Val, c: Val)
    requires
        !(cmp is Callback),
        entry_order(objects, cmp, d, a, b) == Ordering::Less,
        entry_order(objects, cmp, d, b, c) == Ordering::Less,
    ensures
        entry_order(objects, cmp, d, a, c) == Ordering::Less,
{
    reveal(entry_order);
    if !(a is Undefined) && !(b is Undefined) && !(c is Undefined) {
        match cmp {
            ComparatorModel::Basic(k) => {
                if d {
                    lemma_basic_antisymmetric(k, a, b);
                    lemma_basic_antisymmetric(k, b, c);
                    lemma_basic_antisymmetric(k, a, c);
                    lemma_basic_transitive(k, c, b, a);
                } else {
                    lemma_basic_transitive(k, a, b, c);
                }
            },
            ComparatorModel::Fields(fs) => {
                if d {
                    lemma_fields_antisymmetric(objects, fs, a, b);
                    lemma_fields_antisymmetric(objects, fs, b, c);
                    lemma_fields_antisymmetric(objects, fs, a, c);
                    lemma_fields_transitive(objects, fs, c, b, a);
                } else {
                    lemma_fields_transitive(objects, fs, a, b, c);
                }
            },
            ComparatorModel::Callback => {},
        }
    }
}

proof fn lemma_fields_step(objects: Seq<ObjectData>, fields: Seq<FieldModel>, a: Val, b: Val)
    requires
        fields.len() > 0,
    ensures
        field_order(objects, fields[0], a, b) == Ordering::Equal ==> fields_order(objects, fields, a, b)
            == fields_order(objects, fields.drop_first(), a, b),
        field_order(objects, fields[0], a, b) != Ordering::Equal ==> fields_order(objects, fields, a, b)
            == if has_flag(fields[0].bits, DESCENDING) {
            reverse_order(field_order(objects, fields[0], a, b))
        } else {
            field_order(objects, fields[0], a, b)
        },
{
}

/// Compares two field values by the flags of their field.
fn compare_field(realm: &Realm, f: &SortField, a: &Value, b: &Value) -> (r: Ordering)
    ensures
        r == field_order(realm@, f@, a@, b@),
{
    let key = PropKey::Name(f.name.clone());
    let fa = read_field(realm, a, &key);
    let fb = read_field(realm, b, &key);
    compare_basic(kind_for(f.options), &fa, &fb)
}

fn compare_fields(realm: &Realm, fields: &Vec<SortField>, a: &Value, b: &Value) -> (r: Ordering)
    ensures
        r == fields_order(realm@, fields@.map_values(|f: SortField| f@), a@, b@),
{
    let ghost fm = fields@.map_values(|f: SortField| f@);
    let mut i: usize = 0;
    assert(fm.subrange(0, fm.len() as int) =~= fm);
    while i < fields.len()
        invariant
            i <= fields@.len(),
            fm == fields@.map_values(|f: SortField| f@),
            fields_order(realm@, fm, a@, b@) == fields_order(realm@, fm.subrange(i as int, fm.len() as int), a@, b@),
        decreases fields@.len() - i,
    {
        let ghost rest = fm.subrange(i as int, fm.len() as int);
        assert(rest.drop_first() =~= fm.subrange(i + 1, fm.len() as int));
        assert(rest[0] == fields@[i as int]@);
        let ord = compare_field(realm, &fields[i], a, b);
        proof {
            lemma_fields_step(realm@, rest, a@, b@);
        }
        match ord {
            Ordering::Equal => {},
            _ => {
                if fields[i].options.contains(DESCENDING) {
                    return reversed_order(ord);
                } else {
                    return ord;
                }
            },
        }
        i = i + 1;
    }
    Ordering::Equal
}

/// The order a comparison function's result stands for: the sign of the
/// result as a number; not-a-number means equal.
pub open spec fn sign_order(n: Number) -> Ordering {
    match n {
        Number::Int(x) => if x > 0 {
            Ordering::Greater
        } else if x < 0 {
            Ordering::Less
        } else {
            Ordering::Equal
        },
        Number::NaN => Ordering::Equal,
    }
}

/// Reads a comparison function's result as an order.
pub fn order_of_result(result: &Value) -> (r: Ordering)
    ensures
        r == sign_order(to_number(result@)),
{
    match result.coerce_to_number() {
        Number::Int(x) => if x > 0 {
            Ordering::Greater
        } else if x < 0 {
            Ordering::Less
        } else {
            Ordering::Equal
        },
        Number::NaN => Ordering::Equal,
    }
}

pub open spec fn directed(o: Ordering, descending: bool) -> Ordering {
    if descending {
        reverse_order(o)
    } else {
        o
    }
}

/// The order a recorded call of a comparison function gave, reversed where
/// descending.
pub open spec fn call_order(c: CallRecord, descending: bool) -> Ordering {
    directed(sign_order(to_number(c.result->Ok_0@)), descending)
}

/// The order of two values one of which is the absent-marker value: two
/// such are equal, and one sorts after any other value.
pub open spec fn absent_order(a: Val, b: Val) -> Ordering {
    if a is Undefined && b is Undefined {
        Ordering::Equal
    } else if a is Undefined {
        Ordering::Greater
    } else {
        Ordering::Less
    }
}

/// A call of the comparison function `f` on `a` and `b`, with no receiver.
pub open spec fn compare_call(c: CallRecord, f: Val, a: Val, b: Val) -> bool {
    c.callee == f && c.receiver is None && c.args == seq![a, b]
}

/// The calls show that `a` and `b` compare as `o`: by the absent-marker rule
/// where either is absent, else by a recorded call of `f` on them.
pub open spec fn logged_order(calls: Seq<CallRecord>, f: Val, d: bool, a: Val, b: Val, o: Ordering) -> bool {
    if a is Undefined || b is Undefined {
        absent_order(a, b) == o
    } else {
        exists|c: int|
            0 <= c < calls.len() && compare_call(#[trigger] calls[c], f, a, b) && calls[c].result is Ok
                && call_order(calls[c], d) == o
    }
}

/// The calls show that `a` may come before `b`.
pub open spec fn logged_in_order(calls: Seq<CallRecord>, f: Val, d: bool, a: Val, b: Val) -> bool {
    ||| logged_order(calls, f, d, a, b, Ordering::Less)
    ||| logged_order(calls, f, d, a, b, Ordering::Equal)
    ||| logged_order(calls, f, d, b, a, Ordering::Greater)
}

pub open spec fn next_in_order(calls: Seq<CallRecord>, f: Val, d: bool, out: Seq<(usize, Val)>, p: int) -> bool {
    logged_in_order(calls, f, d, out[p].1, out[p + 1].1)
}

/// Each entry of `out` may come before the next by what the comparison
/// function answered.
pub open spec fn sorted_by_calls(calls: Seq<CallRecord>, f: Val, d: bool, out: Seq<(usize, Val)>) -> bool {
    forall|p: int| 0 <= p < out.len() - 1 ==> #[trigger] next_in_order(calls, f, d, out, p)
}

/// Some call of the comparison function answered that its two values are
/// equal.
pub open spec fn logged_equal(calls: Seq<CallRecord>) -> bool {
    exists|c: int|
        0 <= c < calls.len() && (#[trigger] calls[c]).result is Ok && sign_order(to_number(calls[c].result->Ok_0@))
            == Ordering::Equal
}

/// Two values of `input` are the absent-marker value, which compare equal.
pub open spec fn has_two_absent(input: Seq<Val>) -> bool {
    exists|p: int, q: int| 0 <= p < q < input.len() && (#[trigger] input[p]) is Undefined && (#[trigger] input[q]) is Undefined
}

/// Every call is a call of `f` on two values with no receiver.
pub open spec fn comparison_calls(calls: Seq<CallRecord>, f: Val) -> bool {
    forall|c: int| 0 <= c < calls.len() ==> (#[trigger] calls[c]).callee == f && calls[c].receiver is None
        && calls[c].args.len() == 2
}

proof fn lemma_logged_order_grows(calls: Seq<CallRecord>, rec: CallRecord, f: Val, d: bool, a: Val, b: Val, o: Ordering)
    requires
        logged_order(calls, f, d, a, b, o),
    ensures
        logged_order(calls.push(rec), f, d, a, b, o),
{
    if !(a is Undefined || b is Undefined) {
        let c = choose|c: int|
            0 <= c < calls.len() && compare_call(#[trigger] calls[c], f, a, b) && calls[c].result is Ok
                && call_order(calls[c], d) == o;
        assert(calls.push(rec)[c] == calls[c]);
    }
}

proof fn lemma_sorted_by_calls_grows(calls: Seq<CallRecord>, rec: CallRecord, f: Val, d: bool, out: Seq<(usize, Val)>)
    requires
        sorted_by_calls(calls, f, d, out),
    ensures
        sorted_by_calls(calls.push(rec), f, d, out),
{
    assert forall|p: int| 0 <= p < out.len() - 1 implies #[trigger] next_in_order(calls.push(rec), f, d, out, p) by {
        assert(next_in_order(calls, f, d, out, p));
        let (a, b) = (out[p].1, out[p + 1].1);
        if logged_order(calls, f, d, a, b, Ordering::Less) {
            lemma_logged_order_grows(calls, rec, f, d, a, b, Ordering::Less);
        } else if logged_order(calls, f, d, a, b, Ordering::Equal) {
            lemma_logged_order_grows(calls, rec, f, d, a, b, Ordering::Equal);
        } else {
            lemma_logged_order_grows(calls, rec, f, d, b, a, Ordering::Greater);
        }
    }
}

proof fn lemma_insert_sorted_calls(
    calls: Seq<CallRecord>,
    f: Val,
    d: bool,
    s: Seq<(usize, Val)>,
    k: int,
    x: (usize, Val),
    o: Ordering,
)
    requires
        0 <= k <= s.len(),
        sorted_by_calls(calls, f, d, s),
        k < s.len() ==> logged_order(calls, f, d, s[k].1, x.1, Ordering::Greater),
        k > 0 ==> logged_order(calls, f, d, s[k - 1].1, x.1, o) && o != Ordering::Greater,
    ensures
        sorted_by_calls(calls, f, d, s.insert(k, x)),
{
    let s2 = s.insert(k, x);
    s.insert_ensures(k, x);
    assert forall|p: int| 0 <= p < s2.len() - 1 implies #[trigger] next_in_order(calls, f, d, s2, p) by {
        if p + 1 < k {
            assert(s2[p] == s[p] && s2[p + 1] == s[p + 1]);
            assert(next_in_order(calls, f, d, s, p));
        } else if p + 1 == k {
            assert(s2[p] == s[p] && s2[p + 1] == x);
        } else if p == k {
            assert(s2[p] == x && s2[p + 1] == s[k]);
        } else {
            assert(s2[p] == s[p - 1] && s2[p + 1] == s[p]);
            assert(next_in_order(calls, f, d, s, p - 1));
        }
    }
}

/// Compares two entries of a sort: as [`entry_order`] states for the
/// comparators that run no user code; by one recorded call of the
/// comparison function otherwise, unless either value is absent.
fn compare_entries<I: Invoke>(
    realm: &mut Realm,
    host: &mut Host<I>,
    cmp: &Comparator,
    descending: bool,
    a: &Value,
    b: &Value,
) -> (r: Result<Ordering, Error>)
    ensures
        !(cmp is Callback) ==> final(realm)@ == old(realm)@ && final(realm).spec_array_proto()
            == old(realm).spec_array_proto() && final(host).calls() == old(host).calls(),
        !(cmp is Callback) && compare_fails(cmp@, a@, b@) ==> r is Err,
        !(cmp is Callback) && !compare_fails(cmp@, a@, b@) ==> r == Ok::<Ordering, Error>(
            entry_order(old(realm)@, cmp@, descending, a@, b@),
        ),
        cmp is Callback && (a@ is Undefined || b@ is Undefined) ==> final(realm)@ == old(realm)@
            && final(host).calls() == old(host).calls() && r == Ok::<Ordering, Error>(absent_order(a@, b@)),
        cmp is Callback && !(a@ is Undefined || b@ is Undefined) ==> {
            let c = final(host).calls().last();
            &&& final(host).calls() == old(host).calls().push(c)
            &&& compare_call(c, cmp->Callback_0@, a@, b@)
            &&& c.before == old(realm)@ && c.after == final(realm)@
            &&& c.result is Err ==> r is Err && r->Err_0 == c.result->Err_0
            &&& c.result is Ok ==> r == Ok::<Ordering, Error>(call_order(c, descending))
        },
{
    reveal(entry_order);
    let a_undefined = a.is_undefined();
    let b_undefined = b.is_undefined();
    if a_undefined && b_undefined {
        return Ok(Ordering::Equal);
    } else if a_undefined {
        return Ok(Ordering::Greater);
    } else if b_undefined {
        return Ok(Ordering::Less);
    }
    let ord = match cmp {
        Comparator::Basic(k) => compare_basic(*k, a, b),
        Comparator::Fields(fields) => {
            if fields.len() > 0 && (matches!(a, Value::Null) || matches!(b, Value::Null)) {
                return Err(Error::TypeError(String::from_str("Cannot read a field of null")));
            }
            compare_fields(realm, fields, a, b)
        },
        Comparator::Callback(f) => {
            let args = [a.duplicate(), b.duplicate()];
            assert(args_view(args@) =~= seq![a@, b@]);
            match host.call(realm, f, None, &args) {
                Ok(result) => order_of_result(&result),
                Err(e) => {
                    return Err(e);
                },
            }
        },
    };
    if descending {
        Ok(reversed_order(ord))
    } else {
        Ok(ord)
    }
}

pub open spec fn entries_view(v: Seq<(usize, Value)>) -> Seq<(usize, Val)> {
    v.map_values(|e: (usize, Value)| (e.0, e.1@))
}

/// The values of a list of entries.
pub open spec fn entry_values(v: Seq<(usize, Value)>) -> Seq<Val> {
    v.map_values(|e: (usize, Value)| e.1@)
}

/// Each entry of `out` is an index of `input` with the value found there,
/// and no index occurs twice.
pub open spec fn drawn_from(input: Seq<Val>, out: Seq<(usize, Val)>) -> bool {
    &&& forall|p: int| 0 <= p < out.len() ==> (#[trigger] out[p]).0 < input.len() && out[p].1 == input[out[p].0 as int]
    &&& forall|p: int, q: int| 0 <= p < q < out.len() ==> (#[trigger] out[p]).0 != (#[trigger] out[q]).0
}

/// `out` holds every entry of `input` once, in some order.
pub open spec fn is_rearrangement(input: Seq<Val>, out: Seq<(usize, Val)>) -> bool {
    out.len() == input.len() && drawn_from(input, out)
}

/// The order of the entry at `p` and the next one.
pub open spec fn next_order(objects: Seq<ObjectData>, cmp: ComparatorModel, d: bool, out: Seq<(usize, Val)>, p: int) -> Ordering {
    entry_order(objects, cmp, d, out[p].1, out[p + 1].1)
}

/// No entry of `out` sorts after the next one.
pub open spec fn sorted_by(objects: Seq<ObjectData>, cmp: ComparatorModel, d: bool, out: Seq<(usize, Val)>) -> bool {
    forall|p: int| 0 <= p < out.len() - 1 ==> #[trigger] next_order(objects, cmp, d, out, p) != Ordering::Greater
}

/// Each entry of `out` sorts strictly before the next one.
pub open spec fn strictly_sorted_by(objects: Seq<ObjectData>, cmp: ComparatorModel, d: bool, out: Seq<(usize, Val)>) -> bool {
    forall|p: int| 0 <= p < out.len() - 1 ==> #[trigger] next_order(objects, cmp, d, out, p) == Ordering::Less
}

/// Two values of `input` compare equal.
pub open spec fn has_equal_pair(objects: Seq<ObjectData>, cmp: ComparatorModel, d: bool, input: Seq<Val>) -> bool {
    exists|p: int, q: int| 0 <= p < q < input.len() && entry_order(objects, cmp, d, input[p], input[q]) == Ordering::Equal
}

/// Some comparison between two values of `input` cannot be made.
pub open spec fn has_failing_pair(cmp: ComparatorModel, input: Seq<Val>) -> bool {
    exists|p: int, q: int| 0 <= p < q < input.len() && compare_fails(cmp, input[p], input[q])
}

proof fn lemma_insert_drawn(input: Seq<Val>, s: Seq<(usize, Val)>, pos: Seq<int>, k: int, j: usize) -> (pos2: Seq<int>)
    requires
        j < input.len(),
        s.len() == j,
        pos.len() == j,
        0 <= k <= j,
        drawn_from(input, s),
        forall|p: int| 0 <= p < j ==> (#[trigger] s[p]).0 < j,
        forall|i: int| 0 <= i < j ==> 0 <= #[trigger] pos[i] < j && s[pos[i]].0 == i,
    ensures
        drawn_from(input, s.insert(k, (j, input[j as int]))),
        forall|p: int| 0 <= p < j + 1 ==> (#[trigger] s.insert(k, (j, input[j as int]))[p]).0 < j + 1,
        pos2.len() == j + 1,
        forall|i: int| 0 <= i < j + 1 ==> 0 <= #[trigger] pos2[i] < j + 1 && s.insert(k, (j, input[j as int]))[pos2[i]].0 == i,
{
    let s2 = s.insert(k, (j, input[j as int]));
    s.insert_ensures(k, (j, input[j as int]));
    let pos2 = Seq::new((j + 1) as nat, |i: int| if i == j { k } else if pos[i] >= k { pos[i] + 1 } else { pos[i] });
    assert forall|p: int, q: int| 0 <= p < q < s2.len() implies (#[trigger] s2[p]).0 != (#[trigger] s2[q]).0 by {
        if p != k && q != k {
            let pp = if p < k { p } else { p - 1 };
            let qq = if q < k { q } else { q - 1 };
            assert(s2[p] == s[pp] && s2[q] == s[qq]);
        } else if p == k {
            assert(s2[q] == s[q - 1]);
            assert(s2[p].0 == j);
        } else {
            assert(s2[p] == s[p]);
            assert(s2[q].0 == j);
        }
    }
    assert forall|p: int| 0 <= p < s2.len() implies (#[trigger] s2[p]).0 < input.len() && s2[p].1 == input[s2[p].0 as int] && s2[p].0 < j + 1 by {
        if p < k {
            assert(s2[p] == s[p]);
        } else if p > k {
            assert(s2[p] == s[p - 1]);
        }
    }
    assert forall|i: int| 0 <= i < j + 1 implies 0 <= #[trigger] pos2[i] < j + 1 && s2[pos2[i]].0 == i by {
        if i < j {
            if pos[i] >= k {
                assert(s2[pos[i] + 1] == s[pos[i]]);
            } else {
                assert(s2[pos[i]] == s[pos[i]]);
            }
        }
    }
    pos2
}

proof fn lemma_insert_sorted(
    objects: Seq<ObjectData>,
    cmp: ComparatorModel,
    d: bool,
    s: Seq<(usize, Val)>,
    k: int,
    x: (usize, Val),
    strict: bool,
)
    requires
        !(cmp is Callback),
        0 <= k <= s.len(),
        sorted_by(objects, cmp, d, s),
        strict ==> strictly_sorted_by(objects, cmp, d, s),
        k < s.len() ==> entry_order(objects, cmp, d, s[k].1, x.1) == Ordering::Greater,
        k > 0 ==> entry_order(objects, cmp, d, s[k - 1].1, x.1) != Ordering::Greater,
        strict && k > 0 ==> entry_order(objects, cmp, d, s[k - 1].1, x.1) == Ordering::Less,
    ensures
        sorted_by(objects, cmp, d, s.insert(k, x)),
        strict ==> strictly_sorted_by(objects, cmp, d, s.insert(k, x)),
{
    let s2 = s.insert(k, x);
    s.insert_ensures(k, x);
    if k < s.len() {
        lemma_entry_antisymmetric(objects, cmp, d, s[k].1, x.1);
    }
    assert forall|p: int| 0 <= p < s2.len() - 1 implies {
        let o = #[trigger] next_order(objects, cmp, d, s2, p);
        &&& o != Ordering::Greater
        &&& strict ==> o == Ordering::Less
    } by {
        if p + 1 < k {
            assert(s2[p] == s[p] && s2[p + 1] == s[p + 1]);
            assert(next_order(objects, cmp, d, s, p) == next_order(objects, cmp, d, s2, p));
        } else if p + 1 == k {
            assert(s2[p] == s[p] && s2[p + 1] == x);
        } else if p == k {
            assert(s2[p] == x && s2[p + 1] == s[k]);
        } else {
            assert(s2[p] == s[p - 1] && s2[p + 1] == s[p]);
            assert(next_order(objects, cmp, d, s, p - 1) == next_order(objects, cmp, d, s2, p));
        }
    }
}

proof fn lemma_strictly_sorted_pairwise(objects: Seq<ObjectData>, cmp: ComparatorModel, d: bool, out: Seq<(usize, Val)>, p: int, q: int)
    requires
        !(cmp is Callback),
        strictly_sorted_by(objects, cmp, d, out),
        0 <= p < q < out.len(),
    ensures
        entry_order(objects, cmp, d, out[p].1, out[q].1) == Ordering::Less,
    decreases q - p,
{
    if q > p + 1 {
        lemma_strictly_sorted_pairwise(objects, cmp, d, out, p, q - 1);
        assert(next_order(objects, cmp, d, out, q - 1) == Ordering::Less);
        lemma_entry_transitive(objects, cmp, d, out[p].1, out[q - 1].1, out[q].1);
    } else {
        assert(next_order(objects, cmp, d, out, p) == Ordering::Less);
    }
}

proof fn lemma_strict_means_distinct(
    objects: Seq<ObjectData>,
    cmp: ComparatorModel,
    d: bool,
    input: Seq<Val>,
    out: Seq<(usize, Val)>,
    pos: Seq<int>,
)
    requires
        !(cmp is Callback),
        strictly_sorted_by(objects, cmp, d, out),
        is_rearrangement(input, out),
        pos.len() == input.len(),
        forall|i: int| 0 <= i < input.len() ==> 0 <= #[trigger] pos[i] < out.len() && out[pos[i]].0 == i,
    ensures
        !has_equal_pair(objects, cmp, d, input),
{
    assert forall|p: int, q: int| 0 <= p < q < input.len() implies entry_order(objects, cmp, d, input[p], input[q]) != Ordering::Equal by {
        let pp = pos[p];
        let qq = pos[q];
        assert(out[pp].1 == input[p] && out[qq].1 == input[q]);
        if pp < qq {
            lemma_strictly_sorted_pairwise(objects, cmp, d, out, pp, qq);
        } else {
            assert(pp != qq);
            lemma_strictly_sorted_pairwise(objects, cmp, d, out, qq, pp);
            lemma_entry_antisymmetric(objects, cmp, d, input[p], input[q]);
        }
    }
}

/// Sorts entries that are pre-enumerated (each entry's index is its
/// position) and pre-resolved, in place, by insertion. Returns `false`
/// where uniqueness was requested and two entries compared equal. A
/// comparator error ends the sort, the entries then in no particular order.
fn sort_inner<I: Invoke>(
    realm: &mut Realm,
    host: &mut Host<I>,
    values: &mut Vec<(usize, Value)>,
    options: SortOptions,
    cmp: &Comparator,
) -> (r: Result<bool, Error>)
    requires
        forall|k: int| 0 <= k < old(values)@.len() ==> (#[trigger] old(values)@[k]).0 == k,
    ensures
        r is Ok ==> is_rearrangement(entry_values(old(values)@), entries_view(final(values)@)),
        r is Ok && !r->Ok_0 ==> has_flag(options@, UNIQUE_SORT),
        !(cmp is Callback) ==> final(realm)@ == old(realm)@ && final(realm).spec_array_proto()
            == old(realm).spec_array_proto() && final(host).calls() == old(host).calls(),
        !(cmp is Callback) && !has_failing_pair(cmp@, entry_values(old(values)@)) ==> r is Ok,
        cmp is Callback ==> {
            let calls = calls_since(old(host).calls(), final(host).calls());
            let f = cmp->Callback_0@;
            let d = has_flag(options@, DESCENDING);
            &&& extends(old(host).calls(), final(host).calls())
            &&& chained(calls, old(realm)@, final(realm)@)
            &&& comparison_calls(calls, f)
            &&& all_but_last_ok(calls)
            &&& r is Err ==> calls.len() > 0 && calls.last().result is Err && r->Err_0 == calls.last().result->Err_0
            &&& r is Ok ==> all_ok(calls) && sorted_by_calls(calls, f, d, entries_view(final(values)@))
            &&& r is Ok && has_flag(options@, UNIQUE_SORT) && logged_equal(calls) ==> !r->Ok_0
            &&& r is Ok && !r->Ok_0 ==> logged_equal(calls) || has_two_absent(entry_values(old(values)@))
        },
        !(cmp is Callback) && r is Ok ==> {
            let d = has_flag(options@, DESCENDING);
            &&& sorted_by(old(realm)@, cmp@, d, entries_view(final(values)@))
            &&& r->Ok_0 == (!has_flag(options@, UNIQUE_SORT) || !has_equal_pair(
                old(realm)@,
                cmp@,
                d,
                entry_values(old(values)@),
            ))
        },
{
    let ghost r0 = realm@;
    let ghost input = entry_values(values@);
    let ghost builtin = !(cmp is Callback);
    let ghost f = if builtin { Val::Undefined } else { cmp->Callback_0@ };
    let ghost base = host.calls();
    let ghost mut calls: Seq<CallRecord> = Seq::empty();
    proof {
        lemma_log_grows(base, calls);
    }
    let descending = options.contains(DESCENDING);
    let n = values.len();
    let mut sorted: Vec<(usize, Value)> = Vec::new();
    let ghost mut pos: Seq<int> = Seq::empty();
    let mut unique_sort_satisfied = true;
    let mut j: usize = 0;
    while j < n
        invariant
            n == values@.len(),
            input == entry_values(values@),
            builtin == !(cmp is Callback),
            descending == has_flag(options@, DESCENDING),
            forall|k: int| 0 <= k < values@.len() ==> (#[trigger] values@[k]).0 == k,
            j <= n,
            sorted@.len() == j,
            pos.len() == j,
            drawn_from(input, entries_view(sorted@)),
            forall|p: int| 0 <= p < j ==> (#[trigger] sorted@[p]).0 < j,
            forall|i: int| 0 <= i < j ==> 0 <= #[trigger] pos[i] < j && sorted@[pos[i]].0 == i,
            r0 == old(realm)@,
            base == old(host).calls(),
            host.calls() == base + calls,
            calls_since(base, host.calls()) == calls,
            extends(base, host.calls()),
            builtin ==> calls.len() == 0,
            !builtin ==> f == cmp->Callback_0@,
            chained(calls, r0, realm@),
            all_ok(calls),
            comparison_calls(calls, f),
            !builtin ==> sorted_by_calls(calls, f, descending, entries_view(sorted@)),
            logged_equal(calls) ==> !unique_sort_satisfied,
            !builtin && !unique_sort_satisfied ==> logged_equal(calls) || has_two_absent(input.subrange(0, j as int)),
            builtin ==> realm@ == r0 && realm.spec_array_proto() == old(realm).spec_array_proto(),
            builtin ==> sorted_by(r0, cmp@, descending, entries_view(sorted@)),
            builtin && unique_sort_satisfied ==> strictly_sorted_by(r0, cmp@, descending, entries_view(sorted@)),
            builtin && !unique_sort_satisfied ==> has_equal_pair(r0, cmp@, descending, input.subrange(0, j as int)),
        decreases n - j,
    {
        let x = (values[j].0, values[j].1.duplicate());
        assert(input[j as int] == values@[j as int].1@);
        let ghost sv = entries_view(sorted@);
        let mut k: usize = sorted.len();
        let mut stopped = false;
        let mut last = Ordering::Less;
        while !stopped && k > 0
            invariant
                k <= sorted@.len(),
                sorted@.len() == j,
                j < n,
                n == values@.len(),
                sv == entries_view(sorted@),
                input == entry_values(values@),
                x.1@ == input[j as int],
                builtin == !(cmp is Callback),
                descending == has_flag(options@, DESCENDING),
                drawn_from(input, sv),
                forall|p: int| 0 <= p < j ==> (#[trigger] sv[p]).0 < j,
                r0 == old(realm)@,
                base == old(host).calls(),
                host.calls() == base + calls,
                calls_since(base, host.calls()) == calls,
                extends(base, host.calls()),
                builtin ==> calls.len() == 0,
                !builtin ==> f == cmp->Callback_0@,
                chained(calls, r0, realm@),
                all_ok(calls),
                comparison_calls(calls, f),
                !builtin ==> sorted_by_calls(calls, f, descending, sv),
                !builtin && k < sorted@.len() ==> logged_order(calls, f, descending, sv[k as int].1, x.1@, Ordering::Greater),
                !builtin && stopped ==> k > 0 && logged_order(calls, f, descending, sv[k - 1].1, x.1@, last),
                logged_equal(calls) ==> !unique_sort_satisfied || (stopped && last == Ordering::Equal),
                !builtin && !unique_sort_satisfied ==> logged_equal(calls) || has_two_absent(input.subrange(0, j as int)),
                !builtin && stopped && last == Ordering::Equal ==> logged_equal(calls) || (sv[k - 1].1 is Undefined
                    && x.1@ is Undefined),
                builtin ==> realm@ == r0 && realm.spec_array_proto() == old(realm).spec_array_proto(),
                builtin && k < sorted@.len() ==> entry_order(r0, cmp@, descending, sv[k as int].1, x.1@) == Ordering::Greater,
                builtin && stopped ==> k > 0 && entry_order(r0, cmp@, descending, sv[k - 1].1, x.1@) == last,
                stopped ==> last != Ordering::Greater,
            decreases k + if stopped { 0int } else { 1int },
        {
            let ghost mid = realm@;
            let ghost calls_before = calls;
            assert(sorted@[k - 1].1@ == sv[k - 1].1);
            let o = compare_entries(realm, host, cmp, descending, &sorted[k - 1].1, &x.1);
            proof {
                if builtin {
                    assert(host.calls() =~= base + calls);
                } else if !(sv[k - 1].1 is Undefined || x.1@ is Undefined) {
                    let rec = host.calls().last();
                    assert(host.calls() =~= base + calls.push(rec));
                    lemma_chained_push(calls, rec, r0, mid);
                    lemma_sorted_by_calls_grows(calls, rec, f, descending, sv);
                    if k < sorted@.len() {
                        lemma_logged_order_grows(calls, rec, f, descending, sv[k as int].1, x.1@, Ordering::Greater);
                    }
                    let c2 = calls.push(rec);
                    assert(c2[calls.len() as int] == rec);
                    assert forall|c: int| 0 <= c < c2.len() implies (#[trigger] c2[c]).callee == f && c2[c].receiver is None
                        && c2[c].args.len() == 2 by {
                        if c < calls.len() {
                            assert(c2[c] == calls[c]);
                        }
                    }
                    if logged_equal(calls) {
                        let c = choose|c: int|
                            0 <= c < calls.len() && (#[trigger] calls[c]).result is Ok && sign_order(
                                to_number(calls[c].result->Ok_0@),
                            ) == Ordering::Equal;
                        assert(c2[c] == calls[c]);
                    }
                    if rec.result is Ok && sign_order(to_number(rec.result->Ok_0@)) == Ordering::Equal {
                        assert(c2[calls.len() as int] == rec);
                        assert(logged_equal(c2));
                    }
                    if rec.result is Ok {
                        assert forall|c: int| 0 <= c < c2.len() implies (#[trigger] c2[c]).result is Ok by {
                            if c < calls.len() {
                                assert(c2[c] == calls[c]);
                            }
                        }
                    }
                    if logged_equal(c2) && !logged_equal(calls) {
                        let c = choose|c: int|
                            0 <= c < c2.len() && (#[trigger] c2[c]).result is Ok && sign_order(
                                to_number(c2[c].result->Ok_0@),
                            ) == Ordering::Equal;
                        if c < calls.len() {
                            assert(c2[c] == calls[c]);
                        }
                    }
                    calls = c2;
                    lemma_log_grows(base, calls);
                }
            }
            let o = match o {
                Ok(o) => o,
                Err(e) => {
                    proof {
                        if builtin {
                            let q = sv[k - 1].0 as int;
                            assert(sv[k - 1].1 == input[q]);
                            assert(compare_fails(cmp@, input[q], input[j as int]));
                            assert(q < j);
                        }
                    }
                    return Err(e);
                },
            };
            match o {
                Ordering::Greater => {
                    k = k - 1;
                },
                _ => {
                    stopped = true;
                    last = o;
                },
            }
        }
        let equal_found = match last {
            Ordering::Equal => stopped,
            _ => false,
        };
        proof {
            if !builtin && !unique_sort_satisfied && !logged_equal(calls) {
                let (p, q) = choose|p: int, q: int|
                    0 <= p < q < input.subrange(0, j as int).len() && (#[trigger] input.subrange(0, j as int)[p]) is Undefined
                        && (#[trigger] input.subrange(0, j as int)[q]) is Undefined;
                assert(input.subrange(0, j + 1)[p] == input[p] && input.subrange(0, j + 1)[q] == input[q]);
                assert(input.subrange(0, j as int)[p] == input[p] && input.subrange(0, j as int)[q] == input[q]);
            }
            if !builtin && equal_found && !logged_equal(calls) {
                let q = sv[k - 1].0 as int;
                assert(sv[k - 1].1 == input[q]);
                assert(q < j);
                assert(input.subrange(0, j + 1)[q] == input[q]);
                assert(input.subrange(0, j + 1)[j as int] == input[j as int]);
            }
        }
        if equal_found {
            unique_sort_satisfied = false;
            proof {
                if builtin {
                    let q = sv[k - 1].0 as int;
                    assert(sv[k - 1].1 == input[q]);
                    assert(input.subrange(0, j + 1)[q] == input[q]);
                    assert(input.subrange(0, j + 1)[j as int] == input[j as int]);
                }
            }
        }
        proof {
            if !builtin {
                lemma_insert_sorted_calls(calls, f, descending, sv, k as int, (j, x.1@), last);
            }
            if builtin {
                lemma_insert_sorted(r0, cmp@, descending, sv, k as int, (j, x.1@), unique_sort_satisfied);
                if !unique_sort_satisfied {
                    assert forall|p: int, q: int| 0 <= p < q < j && entry_order(r0, cmp@, descending, input.subrange(0, j as int)[p], input.subrange(0, j as int)[q]) == Ordering::Equal implies
                        entry_order(r0, cmp@, descending, input.subrange(0, j + 1)[p], input.subrange(0, j + 1)[q]) == Ordering::Equal by {}
                }
            }
        }
        let ghost new_pos = lemma_insert_drawn(input, sv, pos, k as int, j);
        sorted.insert(k, x);
        assert(entries_view(sorted@) =~= sv.insert(k as int, (j, x.1@)));
        proof {
            pos = new_pos;
        }
        j = j + 1;
    }
    proof {
        assert(input.subrange(0, j as int) =~= input);
        if builtin && unique_sort_satisfied {
            lemma_strict_means_distinct(r0, cmp@, descending, input, entries_view(sorted@), pos);
        }
    }
    *values = sorted;
    Ok(!options.contains(UNIQUE_SORT) || unique_sort_satisfied)
}

/// A sorted entry's index before sorting, as an element of an indexed result.
pub open spec fn index_entry(e: (usize, Val)) -> Option<Val> {
    Some(Val::Number(Number::Int(#[verifier::truncate] (e.0 as i64))))
}

/// The storage of an indexed result: the indices before sorting, in sorted order.
pub open spec fn index_slots(out: Seq<(usize, Val)>) -> Seq<Option<Val>> {
    Seq::new(out.len(), |k: int| index_entry(out[k]))
}

/// A slot of an in-place result: the current slot at the entry's former
/// index where it holds a value, else the resolved value, else a hole.
pub open spec fn placed_slot(cur: Seq<Option<Val>>, e: (usize, Val)) -> Option<Val> {
    if e.0 < cur.len() && cur[e.0 as int] is Some {
        cur[e.0 as int]
    } else if !(e.1 is Undefined) {
        Some(e.1)
    } else {
        None
    }
}

pub open spec fn placed_slots(cur: Seq<Option<Val>>, out: Seq<(usize, Val)>) -> Seq<Option<Val>> {
    Seq::new(out.len(), |k: int| placed_slot(cur, out[k]))
}

/// Takes sorted entries and produces the result the flags ask for: 0 where
/// uniqueness failed; a new array of the former indices; or the receiver,
/// its storage rewritten in sorted order.
fn sort_postprocess(
    realm: &mut Realm,
    this: ObjectId,
    options: SortOptions,
    unique_satisfied: bool,
    values: Vec<(usize, Value)>,
) -> (r: Result<Value, Error>)
    ensures
        r is Ok,
        final(realm).spec_array_proto() == old(realm).spec_array_proto(),
        !unique_satisfied ==> final(realm)@ == old(realm)@ && r->Ok_0@ == Val::Number(Number::Int(0)),
        unique_satisfied && has_flag(options@, RETURN_INDEXED_ARRAY) ==> built_array(
            old(realm)@,
            final(realm)@,
            old(realm).spec_array_proto(),
            index_slots(entries_view(values@)),
            r->Ok_0,
        ),
        unique_satisfied && !has_flag(options@, RETURN_INDEXED_ARRAY) ==> r->Ok_0@ == Val::Object(this) && if storage_of(
            old(realm)@,
            this,
        ) is Some {
            replaced_storage(
                old(realm)@,
                final(realm)@,
                this,
                placed_slots(storage_of(old(realm)@, this)->Some_0, entries_view(values@)),
            )
        } else {
            final(realm)@ == old(realm)@
        },
{
    if !unique_satisfied {
        return Ok(Value::Number(Number::Int(0)));
    }
    let ghost ev = entries_view(values@);
    if options.contains(RETURN_INDEXED_ARRAY) {
        let mut slots: Vec<Option<Value>> = Vec::new();
        let mut k: usize = 0;
        while k < values.len()
            invariant
                k <= values@.len(),
                ev == entries_view(values@),
                slots@.map_values(|s: Option<Value>| slot_view(s)) =~= index_slots(ev).subrange(0, k as int),
            decreases values@.len() - k,
        {
            let ghost before = slots@.map_values(|s: Option<Value>| slot_view(s));
            slots.push(Some(Value::Number(Number::Int(#[verifier::truncate] (values[k].0 as i64)))));
            assert(slots@.map_values(|s: Option<Value>| slot_view(s)) =~= before.push(index_entry(ev[k as int])));
            k = k + 1;
        }
        assert(index_slots(ev).subrange(0, k as int) =~= index_slots(ev));
        return build_array(realm, ArrayStorage::from_storage(slots));
    }
    let old_array = match realm.array_storage(this) {
        Some(st) => st,
        None => return Ok(Value::Object(this)),
    };
    let ghost cur = old_array@;
    let mut slots: Vec<Option<Value>> = Vec::new();
    let mut k: usize = 0;
    while k < values.len()
        invariant
            k <= values@.len(),
            ev == entries_view(values@),
            cur == old_array@,
            slots@.map_values(|s: Option<Value>| slot_view(s)) =~= placed_slots(cur, ev).subrange(0, k as int),
        decreases values@.len() - k,
    {
        let ghost before = slots@.map_values(|s: Option<Value>| slot_view(s));
        let src = values[k].0;
        let slot = match old_array.get(src) {
            Some(old_value) => Some(old_value),
            None => if !values[k].1.is_undefined() {
                Some(values[k].1.duplicate())
            } else {
                None
            },
        };
        slots.push(slot);
        assert(slots@.map_values(|s: Option<Value>| slot_view(s)) =~= before.push(placed_slot(cur, ev[k as int])));
        k = k + 1;
    }
    assert(placed_slots(cur, ev).subrange(0, k as int) =~= placed_slots(cur, ev));
    let new_array = ArrayStorage::from_storage(slots);
    let ghost before = realm@;
    realm.replace_storage(this, new_array);
    assert forall|m: int| 0 <= m < before.len() && m != this implies realm@[m] == before[m] by {}
    Ok(Value::Object(this))
}

/// The elements of an array value, holes resolved; `None` for any other
/// value.
pub open spec fn array_values_of(objects: Seq<ObjectData>, v: Val) -> Option<Seq<Val>> {
    match v {
        Val::Object(o) => if storage_of(objects, o) is Some {
            Some(resolved_values(objects, o))
        } else {
            None
        },
        _ => None,
    }
}

/// Given a value, extracts its array elements, holes resolved; a value that
/// is not an array yields `None`.
fn extract_array_values(realm: &Realm, value: &Value) -> (r: Result<Option<Vec<Value>>, Error>)
    ensures
        r is Ok,
        match array_values_of(realm@, value@) {
            Some(vs) => r->Ok_0 is Some && values_view(r->Ok_0->Some_0@) == vs,
            None => r->Ok_0 is None,
        },
{
    match value {
        Value::Object(o) => {
            if realm.array_storage(*o).is_some() {
                Ok(Some(resolved_contents(realm, *o)))
            } else {
                Ok(None)
            }
        },
        _ => Ok(None),
    }
}

/// Pairs each value with its position.
fn enumerate_values(values: Vec<Value>) -> (r: Vec<(usize, Value)>)
    ensures
        r@.len() == values@.len(),
        forall|k: int| 0 <= k < r@.len() ==> (#[trigger] r@[k]).0 == k,
        entry_values(r@) == values_view(values@),
{
    let mut out: Vec<(usize, Value)> = Vec::new();
    let mut i: usize = 0;
    while i < values.len()
        invariant
            i <= values@.len(),
            out@.len() == i,
            forall|k: int| 0 <= k < i ==> (#[trigger] out@[k]).0 == k && out@[k].1@ == values@[k]@,
        decreases values@.len() - i,
    {
        out.push((i, values[i].duplicate()));
        i = i + 1;
    }
    assert(entry_values(out@) =~= values_view(values@));
    out
}

/// The flags of `sort`: the second argument where there are two or more,
/// else the first, else none.
pub open spec fn sort_bits(args: Seq<Value>) -> u8 {
    let v = if args.len() > 1 {
        args[1]@
    } else {
        arg_or(args, 0, Val::Number(Number::Int(0)))
    };
    option_bits(v)
}

/// A value read as sort flags: as an unsigned 32-bit integer, its low byte,
/// unknown flags dropped.
pub open spec fn option_bits(v: Val) -> u8 {
    (#[verifier::truncate] (crate::value::to_u32(v) as u8)) & ALL_FLAGS
}

/// What a sort of the array `t` yields with the comparison `cmp` and the
/// flags `bits`: 0 and no change where uniqueness was asked for and two
/// elements compare equal; otherwise the elements in a sorted order, as a
/// new array of their indices or written back into `t`.
pub open spec fn sort_outcome(
    before: Seq<ObjectData>,
    after: Seq<ObjectData>,
    proto: Option<ObjectId>,
    t: ObjectId,
    cmp: ComparatorModel,
    bits: u8,
    r: Value,
) -> bool {
    let all = resolved_values(before, t);
    let d = has_flag(bits, DESCENDING);
    if has_flag(bits, UNIQUE_SORT) && has_equal_pair(before, cmp, d, all) {
        after == before && r@ == Val::Number(Number::Int(0))
    } else {
        exists|out: Seq<(usize, Val)>|
            #[trigger] is_rearrangement(all, out) && sorted_by(before, cmp, d, out) && if has_flag(
                bits,
                RETURN_INDEXED_ARRAY,
            ) {
                built_array(before, after, proto, index_slots(out), r)
            } else {
                r@ == Val::Object(t) && replaced_storage(
                    before,
                    after,
                    t,
                    placed_slots(storage_of(before, t)->Some_0, out),
                )
            }
    }
}

/// Implements `Array.sort`. With two or more arguments the first is a
/// comparison function and the second the flags; otherwise the only argument
/// is the flags, and the flags choose a built-in comparison.
pub fn sort<I: Invoke>(realm: &mut Realm, host: &mut Host<I>, this: Option<ObjectId>, args: &[Value]) -> (r: Result<Value, Error>)
    ensures
        this is None ==> final(realm)@ == old(realm)@ && final(host).calls() == old(host).calls() && r is Ok
            && r->Ok_0@ == Val::Number(Number::Int(0)),
        this is Some && args@.len() > 1 && (args@[0]@ is Undefined || args@[0]@ is Null) ==> r is Err
            && r->Err_0 is TypeError && final(realm)@ == old(realm)@ && final(host).calls() == old(host).calls(),
        this is Some && !is_array(old(realm)@, this) && !(args@.len() > 1 && (args@[0]@ is Undefined
            || args@[0]@ is Null)) ==> final(realm)@ == old(realm)@ && final(host).calls() == old(host).calls()
            && r is Ok && r->Ok_0@ == Val::Number(Number::Int(0)),
        is_array(old(realm)@, this) && args@.len() <= 1 ==> r is Ok && final(host).calls() == old(host).calls()
            && sort_outcome(
            old(realm)@,
            final(realm)@,
            old(realm).spec_array_proto(),
            this->Some_0,
            ComparatorModel::Basic(kind_of(sort_bits(args@))),
            sort_bits(args@),
            r->Ok_0,
        ),
        is_array(old(realm)@, this) && args@.len() > 1 && !(args@[0]@ is Undefined || args@[0]@ is Null) ==> {
            let calls = calls_since(old(host).calls(), final(host).calls());
            let t = this->Some_0;
            let f = args@[0]@;
            let bits = sort_bits(args@);
            let end = if calls.len() == 0 { old(realm)@ } else { calls.last().after };
            &&& extends(old(host).calls(), final(host).calls())
            &&& chained(calls, old(realm)@, end)
            &&& comparison_calls(calls, f)
            &&& all_but_last_ok(calls)
            &&& r is Err ==> calls.len() > 0 && calls.last().result is Err && r->Err_0 == calls.last().result->Err_0
                && final(realm)@ == end
            &&& r is Ok ==> all_ok(calls)
            &&& r is Ok && has_flag(bits, UNIQUE_SORT) && logged_equal(calls) ==> r->Ok_0@ == Val::Number(
                Number::Int(0),
            ) && final(realm)@ == end
            &&& r is Ok && r->Ok_0@ == Val::Number(Number::Int(0)) ==> has_flag(bits, UNIQUE_SORT) && final(realm)@
                == end && (logged_equal(calls) || has_two_absent(resolved_values(old(realm)@, t)))
            &&& r is Ok && r->Ok_0@ != Val::Number(Number::Int(0)) ==> exists|out: Seq<(usize, Val)>|
                #[trigger] is_rearrangement(resolved_values(old(realm)@, t), out) && sorted_by_calls(
                    calls,
                    f,
                    has_flag(bits, DESCENDING),
                    out,
                ) && if has_flag(bits, RETURN_INDEXED_ARRAY) {
                    built_array(end, final(realm)@, final(realm).spec_array_proto(), index_slots(out), r->Ok_0)
                } else {
                    r->Ok_0@ == Val::Object(t) && if storage_of(end, t) is Some {
                        replaced_storage(end, final(realm)@, t, placed_slots(storage_of(end, t)->Some_0, out))
                    } else {
                        final(realm)@ == end
                    }
                }
        },
{
    let t = match this {
        Some(t) => t,
        None => return Ok(Value::Number(Number::Int(0))),
    };
    let (compare_fnc, flags) = if args.len() > 1 {
        match &args[0] {
            Value::Undefined | Value::Null => {
                return Err(Error::TypeError(String::from_str("Cannot convert null or undefined to an object")));
            },
            _ => {},
        }
        (Some(args[0].duplicate()), args[1].coerce_to_u32())
    } else {
        let first = if args.len() > 0 { args[0].duplicate() } else { Value::Number(Number::Int(0)) };
        (None, first.coerce_to_u32())
    };
    let options = SortOptions::from_bits_truncate(#[verifier::truncate] (flags as u8));
    let ghost bits = options@;
    let values = match extract_array_values(realm, &Value::Object(t)).unwrap() {
        Some(values) => values,
        None => return Ok(Value::Number(Number::Int(0))),
    };
    let mut values = enumerate_values(values);
    let cmp = match compare_fnc {
        Some(v) => Comparator::Callback(v),
        None => Comparator::Basic(kind_for(options)),
    };
    let ghost before = realm@;
    let ghost input = entry_values(values@);
    let unique_satisfied = match sort_inner(realm, host, &mut values, options, &cmp) {
        Ok(u) => u,
        Err(e) => {
            return Err(e);
        },
    };
    let ghost mid = realm@;
    let ghost out = entries_view(values@);
    let r = sort_postprocess(realm, t, options, unique_satisfied, values);
    proof {
        if unique_satisfied {
            assert(is_rearrangement(input, out));
            if has_flag(bits, RETURN_INDEXED_ARRAY) {
                assert(realm@.drop_last() == mid);
            }
        }
        if args@.len() <= 1 {
            assert(has_flag(bits, UNIQUE_SORT) && has_equal_pair(before, cmp@, has_flag(bits, DESCENDING), input) ==> !unique_satisfied);
        }
    }
    r
}

/// An argument that may be an array: its elements, holes resolved, or the
/// value alone.
pub open spec fn maybe_array_values(objects: Seq<ObjectData>, v: Val) -> Seq<Val> {
    match array_values_of(objects, v) {
        Some(vs) => vs,
        None => seq![v],
    }
}

/// Given a value, extracts its array elements; any other value stands as a
/// one-element list.
fn extract_maybe_array_values(realm: &Realm, value: &Value) -> (r: Result<Vec<Value>, Error>)
    ensures
        r is Ok,
        values_view(r->Ok_0@) == maybe_array_values(realm@, value@),
{
    match extract_array_values(realm, value)? {
        Some(vs) => Ok(vs),
        None => {
            let mut vs: Vec<Value> = Vec::new();
            vs.push(value.duplicate());
            assert(values_view(vs@) =~= seq![value@]);
            Ok(vs)
        },
    }
}

/// Given a value, extracts its array elements as strings; any other value
/// stands as a one-element list.
fn extract_maybe_array_strings(realm: &Realm, value: &Value) -> (r: Result<Vec<String>, Error>)
    ensures
        r is Ok,
        r->Ok_0@.map_values(|s: String| s@) == maybe_array_values(realm@, value@).map_values(
            |v: Val| to_text(v),
        ),
{
    let values = extract_maybe_array_values(realm, value)?;
    let mut out: Vec<String> = Vec::new();
    let mut i: usize = 0;
    while i < values.len()
        invariant
            i <= values@.len(),
            out@.len() == i,
            forall|k: int| 0 <= k < i ==> (#[trigger] out@[k])@ == to_text(values@[k]@),
        decreases values@.len() - i,
    {
        out.push(values[i].coerce_to_string());
        i = i + 1;
    }
    assert(out@.map_values(|s: String| s@) =~= values_view(values@).map_values(|v: Val| to_text(v)));
    Ok(out)
}

/// Given a value, extracts its array elements as sort flags; any other value
/// stands as a one-element list.
fn extract_maybe_array_sort_options(realm: &Realm, value: &Value) -> (r: Result<Vec<SortOptions>, Error>)
    ensures
        r is Ok,
        r->Ok_0@.map_values(|o: SortOptions| o@) == maybe_array_values(realm@, value@).map_values(
            |v: Val| option_bits(v),
        ),
{
    let values = extract_maybe_array_values(realm, value)?;
    let mut out: Vec<SortOptions> = Vec::new();
    let mut i: usize = 0;
    while i < values.len()
        invariant
            i <= values@.len(),
            out@.len() == i,
            forall|k: int| 0 <= k < i ==> (#[trigger] out@[k])@ == option_bits(values@[k]@),
        decreases values@.len() - i,
    {
        let n = values[i].coerce_to_u32();
        out.push(SortOptions::from_bits_truncate(#[verifier::truncate] (n as u8)));
        i = i + 1;
    }
    assert(out@.map_values(|o: SortOptions| o@) =~= values_view(values@).map_values(|v: Val| option_bits(v)));
    Ok(out)
}

/// The flags of each `sortOn` field: its own entry of the options, or the
/// last entry where there are fewer options than fields, or none.
pub open spec fn padded_bits(opts: Seq<u8>, i: int) -> u8 {
    if i < opts.len() {
        opts[i]
    } else if opts.len() > 0 {
        opts.last()
    } else {
        0
    }
}

/// The fields `sortOn` compares by, from its first two arguments.
pub open spec fn sort_on_fields(objects: Seq<ObjectData>, args: Seq<Value>) -> Seq<FieldModel> {
    let names = maybe_array_values(objects, args[0]@);
    let opts = maybe_array_values(objects, arg_or(args, 1, Val::Number(Number::Int(0)))).map_values(
        |v: Val| option_bits(v),
    );
    Seq::new(names.len(), |i: int| FieldModel { name: to_text(names[i]), bits: padded_bits(opts, i) })
}

/// The flags of the `sortOn` result: uniqueness and indexed result, taken
/// from the first options entry alone.
pub open spec fn sort_on_bits(objects: Seq<ObjectData>, args: Seq<Value>) -> u8 {
    let opts = maybe_array_values(objects, arg_or(args, 1, Val::Number(Number::Int(0)))).map_values(
        |v: Val| option_bits(v),
    );
    (if opts.len() > 0 { opts[0] } else { 0u8 }) & (UNIQUE_SORT | RETURN_INDEXED_ARRAY)
}

/// Implements `Array.sortOn`: sorts objects by one or more named fields,
/// each with its own flags.
pub fn sort_on<I: Invoke>(realm: &mut Realm, host: &mut Host<I>, this: Option<ObjectId>, args: &[Value]) -> (r: Result<Value, Error>)
    ensures
        final(host).calls() == old(host).calls(),
        final(realm)@ == old(realm)@ || r is Ok,
        !is_array(old(realm)@, this) || args@.len() == 0 ==> final(realm)@ == old(realm)@ && r is Ok
            && r->Ok_0@ == Val::Number(Number::Int(0)),
        is_array(old(realm)@, this) && args@.len() > 0 ==> {
            let cmp = ComparatorModel::Fields(sort_on_fields(old(realm)@, args@));
            &&& !has_failing_pair(cmp, resolved_values(old(realm)@, this->Some_0)) ==> r is Ok
            &&& r is Ok ==> sort_outcome(
                old(realm)@,
                final(realm)@,
                old(realm).spec_array_proto(),
                this->Some_0,
                cmp,
                sort_on_bits(old(realm)@, args@),
                r->Ok_0,
            )
        },
{
    let t = match this {
        Some(t) => t,
        None => return Ok(Value::Number(Number::Int(0))),
    };
    if args.len() == 0 || realm.array_storage(t).is_none() {
        return Ok(Value::Number(Number::Int(0)));
    }
    let field_names = extract_maybe_array_strings(realm, &args[0])?;
    let options_arg = if args.len() > 1 { args[1].duplicate() } else { Value::Number(Number::Int(0)) };
    let options = extract_maybe_array_sort_options(realm, &options_arg)?;
    let ghost names = maybe_array_values(realm@, args@[0]@);
    let ghost opts = options@.map_values(|o: SortOptions| o@);
    assert(names.map_values(|v: Val| to_text(v)).len() == names.len());
    let first = if options.len() > 0 { options[0] } else { SortOptions::empty() };
    let first_option = first.intersection(UNIQUE_SORT | RETURN_INDEXED_ARRAY);
    let values = match extract_array_values(realm, &Value::Object(t))? {
        Some(values) => values,
        None => return Ok(Value::Number(Number::Int(0))),
    };
    let mut values = enumerate_values(values);
    let mut fields: Vec<SortField> = Vec::new();
    let mut i: usize = 0;
    while i < field_names.len()
        invariant
            i <= field_names@.len(),
            field_names@.map_values(|s: String| s@) == names.map_values(|v: Val| to_text(v)),
            names.len() == field_names@.len(),
            opts == options@.map_values(|o: SortOptions| o@),
            fields@.len() == i,
            forall|k: int| 0 <= k < i ==> (#[trigger] fields@[k])@ == (FieldModel {
                name: to_text(names[k]),
                bits: padded_bits(opts, k),
            }),
        decreases field_names@.len() - i,
    {
        let field_options = if i < options.len() {
            options[i]
        } else if options.len() > 0 {
            options[options.len() - 1]
        } else {
            SortOptions::empty()
        };
        assert(field_names@.map_values(|s: String| s@)[i as int] == names.map_values(|v: Val| to_text(v))[i as int]);
        fields.push(SortField { name: field_names[i].clone(), options: field_options });
        i = i + 1;
    }
    assert(opts == maybe_array_values(realm@, arg_or(args@, 1, Val::Number(Number::Int(0)))).map_values(
        |v: Val| option_bits(v),
    ));
    assert(fields@.map_values(|f: SortField| f@) =~= sort_on_fields(realm@, args@));
    let cmp = Comparator::Fields(fields);
    let ghost input = entry_values(values@);
    let unique_satisfied = sort_inner(realm, host, &mut values, first_option, &cmp)?;
    let ghost out = entries_view(values@);
    let r = sort_postprocess(realm, t, first_option, unique_satisfied, values);
    proof {
        if unique_satisfied {
            assert(is_rearrangement(input, out));
        }
    }
    r
}

} // verus!
