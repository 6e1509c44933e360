//! Script values, their mathematical model, and the coercions that the array
//! methods perform on them.

use vstd::prelude::*;
use vstd::string::*;

verus! {

/// Handle of an object in a [`crate::realm::Realm`].
pub type ObjectId = usize;

/// A numeric value. Numbers are held exactly as 64-bit integers; the
/// not-a-number value stands on its own.
#[derive(Clone, Copy, Debug, PartialEq, Eq, Structural)]
pub enum Number {
    Int(i64),
    NaN,
}

/// A script value.
#[derive(Clone, Debug, PartialEq)]
pub enum Value {
    /// The absent-marker value.
    Undefined,
    Null,
    Bool(bool),
    Number(Number),
    String(String),
    Object(ObjectId),
}

/// The mathematical model of a [`Value`].
pub enum Val {
    Undefined,
    Null,
    Bool(bool),
    Number(Number),
    String(Seq<char>),
    Object(ObjectId),
}

impl View for Value {
    type V = Val;

    open spec fn view(&self) -> Val {
        match self {
            Value::Undefined => Val::Undefined,
            Value::Null => Val::Null,
            Value::Bool(b) => Val::Bool(*b),
            Value::Number(n) => Val::Number(*n),
            Value::String(s) => Val::String(s@),
            Value::Object(o) => Val::Object(*o),
        }
    }
}

/// Errors raised by the array methods.
#[derive(Clone, Debug, PartialEq)]
pub enum Error {
    /// An argument is out of the accepted range.
    ArgumentError(String),
    /// A value could not be converted to the type a method requires.
    TypeError(String),
    /// A value thrown by user code, propagated unchanged.
    Thrown(Value),
    /// An operation that the receiver never permits.
    IllegalOperation(String),
}

/// Strict equality: no coercion, and not-a-number equals nothing.
pub open spec fn strict_equal(a: Val, b: Val) -> bool {
    match (a, b) {
        (Val::Undefined, Val::Undefined) => true,
        (Val::Null, Val::Null) => true,
        (Val::Bool(x), Val::Bool(y)) => x == y,
        (Val::Number(Number::Int(x)), Val::Number(Number::Int(y))) => x == y,
        (Val::String(x), Val::String(y)) => x == y,
        (Val::Object(x), Val::Object(y)) => x == y,
        _ => false,
    }
}

pub open spec fn to_boolean(v: Val) -> bool {
    match v {
        Val::Undefined => false,
        Val::Null => false,
        Val::Bool(b) => b,
        Val::Number(Number::Int(n)) => n != 0,
        Val::Number(Number::NaN) => false,
        Val::String(s) => s.len() > 0,
        Val::Object(_) => true,
    }
}

pub open spec fn is_digit(c: char) -> bool {
    '0' <= c <= '9'
}

pub open spec fn all_digits(s: Seq<char>) -> bool {
    forall|i: int| 0 <= i < s.len() ==> is_digit(#[trigger] s[i])
}

/// The value of a run of decimal digits.
pub open spec fn digits_value(s: Seq<char>) -> int
    decreases s.len(),
{
    if s.len() == 0 {
        0
    } else {
        digits_value(s.drop_last()) * 10 + (s.last() as int - '0' as int)
    }
}

/// The most decimal digits a string may hold to be read as a number.
pub const MAX_DIGITS: usize = 18;

/// Reads a string as a number: empty reads as zero, an optional minus sign
/// followed by one to eighteen decimal digits reads as that integer, anything
/// else as not-a-number.
pub open spec fn parse_number(s: Seq<char>) -> Number {
    if s.len() == 0 {
        Number::Int(0)
    } else if s[0] == '-' && 1 < s.len() <= MAX_DIGITS + 1 && all_digits(s.drop_first()) {
        Number::Int((-digits_value(s.drop_first())) as i64)
    } else if s.len() <= MAX_DIGITS && all_digits(s) {
        Number::Int(digits_value(s) as i64)
    } else {
        Number::NaN
    }
}

pub open spec fn to_number(v: Val) -> Number {
    match v {
        Val::Undefined => Number::NaN,
        Val::Null => Number::Int(0),
        Val::Bool(b) => Number::Int(if b { 1 } else { 0 }),
        Val::Number(n) => n,
        Val::String(s) => parse_number(s),
        Val::Object(_) => Number::NaN,
    }
}

/// Conversion to a signed 32-bit integer: wraps modulo 2^32, not-a-number is 0.
pub open spec fn to_i32(v: Val) -> i32 {
    match to_number(v) {
        Number::Int(n) => n as i32,
        Number::NaN => 0,
    }
}

/// Conversion to an unsigned 32-bit integer: wraps modulo 2^32, not-a-number is 0.
pub open spec fn to_u32(v: Val) -> u32 {
    match to_number(v) {
        Number::Int(n) => n as u32,
        Number::NaN => 0,
    }
}

pub open spec fn digit_char(d: nat) -> char {
    ((d + '0' as nat) as u32) as char
}

/// Decimal digits of a natural number, most significant first.
pub open spec fn nat_text(n: nat) -> Seq<char>
    decreases n,
{
    if n < 10 {
        seq![digit_char(n)]
    } else {
        nat_text(n / 10).push(digit_char(n % 10))
    }
}

pub open spec fn int_text(n: int) -> Seq<char> {
    if n < 0 {
        seq!['-'] + nat_text((-n) as nat)
    } else {
        nat_text(n as nat)
    }
}

pub open spec fn to_text(v: Val) -> Seq<char> {
    match v {
        Val::Undefined => "undefined"@,
        Val::Null => "null"@,
        Val::Bool(b) => if b { "true"@ } else { "false"@ },
        Val::Number(Number::Int(n)) => int_text(n as int),
        Val::Number(Number::NaN) => "NaN"@,
        Val::String(s) => s,
        Val::Object(_) => "[object Object]"@,
    }
}

fn digit_str(d: u64) -> (r: &'static str)
    requires
        d < 10,
    ensures
        r@ == seq![digit_char(d as nat)],
{
    proof {
        reveal_strlit("0");
        reveal_strlit("1");
        reveal_strlit("2");
        reveal_strlit("3");
        reveal_strlit("4");
        reveal_strlit("5");
        reveal_strlit("6");
        reveal_strlit("7");
        reveal_strlit("8");
        reveal_strlit("9");
    }
    match d {
        0 => "0",
        1 => "1",
        2 => "2",
        3 => "3",
        4 => "4",
        5 => "5",
        6 => "6",
        7 => "7",
        8 => "8",
        _ => "9",
    }
}

fn format_nat(n: u64) -> (r: String)
    ensures
        r@ == nat_text(n as nat),
    decreases n,
{
    if n < 10 {
        String::from_str(digit_str(n))
    } else {
        let mut s = format_nat(n / 10);
        s.append(digit_str(n % 10));
        s
    }
}

/// Decimal text of an integer.
pub fn format_int(n: i64) -> (r: String)
    ensures
        r@ == int_text(n as int),
{
    if n < 0 {
        let m: u64 = (-(n as i128)) as u64;
        let mut s = String::from_str("-");
        proof {
            reveal_strlit("-");
        }
        let digits = format_nat(m);
        s.append(digits.as_str());
        s
    } else {
        format_nat(n as u64)
    }
}

fn parse_digits(s: &str, from: usize) -> (r: i64)
    requires
        from <= s@.len(),
        s@.len() - from <= MAX_DIGITS,
        all_digits(s@.subrange(from as int, s@.len() as int)),
    ensures
        r as int == digits_value(s@.subrange(from as int, s@.len() as int)),
        0 <= r < 1_000_000_000_000_000_000,
{
    let n = s.unicode_len();
    let mut acc: i64 = 0;
    let mut i: usize = from;
    while i < n
        invariant
            n == s@.len(),
            from <= i <= n,
            n - from <= MAX_DIGITS,
            all_digits(s@.subrange(from as int, n as int)),
            acc as int == digits_value(s@.subrange(from as int, i as int)),
            0 <= acc < pow10((i - from) as nat),
        decreases n - i,
    {
        let c = s.get_char(i);
        assert(s@.subrange(from as int, n as int)[i - from] == c);
        let d = (c as u32 - '0' as u32) as i64;
        proof {
            lemma_pow10_bound((i + 1 - from) as nat);
            let t = s@.subrange(from as int, i as int + 1);
            assert(t.drop_last() =~= s@.subrange(from as int, i as int));
            assert(pow10((i + 1 - from) as nat) == pow10((i - from) as nat) * 10);
            assert(acc * 10 + d < pow10((i - from) as nat) * 10) by (nonlinear_arith)
                requires acc < pow10((i - from) as nat), 0 <= d < 10;
        }
        acc = acc * 10 + d;
        i = i + 1;
    }
    assert(s@.subrange(from as int, n as int) =~= s@.subrange(from as int, i as int));
    proof {
        lemma_pow10_bound((i - from) as nat);
    }
    acc
}

pub open spec fn pow10(n: nat) -> int
    decreases n,
{
    if n == 0 {
        1
    } else {
        pow10((n - 1) as nat) * 10
    }
}

proof fn lemma_pow10_positive(n: nat)
    ensures
        1 <= pow10(n),
    decreases n,
{
    if n > 0 {
        lemma_pow10_positive((n - 1) as nat);
    }
}

proof fn lemma_pow10_monotonic(a: nat, b: nat)
    requires
        a <= b,
    ensures
        pow10(a) <= pow10(b),
    decreases b,
{
    if b > a {
        lemma_pow10_monotonic(a, (b - 1) as nat);
        lemma_pow10_positive((b - 1) as nat);
    }
}

proof fn lemma_pow10_bound(n: nat)
    requires
        n <= MAX_DIGITS,
    ensures
        1 <= pow10(n) <= 1_000_000_000_000_000_000,
{
    lemma_pow10_positive(n);
    lemma_pow10_monotonic(n, MAX_DIGITS as nat);
    reveal_with_fuel(pow10, 19);
}

fn text_all_digits(s: &str, from: usize) -> (r: bool)
    requires
        from <= s@.len(),
    ensures
        r == all_digits(s@.subrange(from as int, s@.len() as int)),
{
    let n = s.unicode_len();
    let mut i: usize = from;
    while i < n
        invariant
            n == s@.len(),
            from <= i <= n,
            all_digits(s@.subrange(from as int, i as int)),
        decreases n - i,
    {
        let c = s.get_char(i);
        if !('0' <= c && c <= '9') {
            assert(s@.subrange(from as int, n as int)[i - from] == c);
            return false;
        }
        assert(all_digits(s@.subrange(from as int, i as int + 1))) by {
            assert forall|k: int| 0 <= k < i + 1 - from implies is_digit(
                #[trigger] s@.subrange(from as int, i as int + 1)[k],
            ) by {
                if k < i - from {
                    assert(s@.subrange(from as int, i as int + 1)[k] == s@.subrange(
                        from as int,
                        i as int,
                    )[k]);
                }
            }
        }
        i = i + 1;
    }
    true
}

/// Reads a string as a number, as [`parse_number`] states.
pub fn parse_text_number(s: &str) -> (r: Number)
    ensures
        r == parse_number(s@),
{
    let n = s.unicode_len();
    if n == 0 {
        return Number::Int(0);
    }
    if s.get_char(0) == '-' {
        if 1 < n && n <= MAX_DIGITS + 1 && text_all_digits(s, 1) {
            assert(s@.subrange(1, n as int) =~= s@.drop_first());
            let v = parse_digits(s, 1);
            return Number::Int(-v);
        }
        assert(s@.subrange(1, n as int) =~= s@.drop_first());
        if n <= MAX_DIGITS {
            assert(!is_digit(s@[0]));
            assert(!all_digits(s@));
        }
        return Number::NaN;
    }
    if n <= MAX_DIGITS && text_all_digits(s, 0) {
        assert(s@.subrange(0, n as int) =~= s@);
        let v = parse_digits(s, 0);
        Number::Int(v)
    } else {
        assert(s@.subrange(0, n as int) =~= s@);
        Number::NaN
    }
}

impl Value {
    /// A copy of the value.
    pub fn duplicate(&self) -> (r: Value)
        ensures
            r@ == self@,
    {
        match self {
            Value::Undefined => Value::Undefined,
            Value::Null => Value::Null,
            Value::Bool(b) => Value::Bool(*b),
            Value::Number(n) => Value::Number(*n),
            Value::String(s) => Value::String(s.clone()),
            Value::Object(o) => Value::Object(*o),
        }
    }

    pub fn is_undefined(&self) -> (r: bool)
        ensures
            r == (self@ is Undefined),
    {
        matches!(self, Value::Undefined)
    }

    /// Strict equality, as used by searches.
    pub fn strict_equals(&self, other: &Value) -> (r: bool)
        ensures
            r == strict_equal(self@, other@),
    {
        match (self, other) {
            (Value::Undefined, Value::Undefined) => true,
            (Value::Null, Value::Null) => true,
            (Value::Bool(x), Value::Bool(y)) => *x == *y,
            (Value::Number(Number::Int(x)), Value::Number(Number::Int(y))) => *x == *y,
            (Value::String(x), Value::String(y)) => x.eq(y),
            (Value::Object(x), Value::Object(y)) => *x == *y,
            _ => false,
        }
    }

    pub fn coerce_to_boolean(&self) -> (r: bool)
        ensures
            r == to_boolean(self@),
    {
        match self {
            Value::Undefined => false,
            Value::Null => false,
            Value::Bool(b) => *b,
            Value::Number(Number::Int(n)) => *n != 0,
            Value::Number(Number::NaN) => false,
            Value::String(s) => s.as_str().unicode_len() > 0,
            Value::Object(_) => true,
        }
    }

    pub fn coerce_to_number(&self) -> (r: Number)
        ensures
            r == to_number(self@),
    {
        match self {
            Value::Undefined => Number::NaN,
            Value::Null => Number::Int(0),
            Value::Bool(b) => Number::Int(if *b { 1 } else { 0 }),
            Value::Number(n) => *n,
            Value::String(s) => parse_text_number(s.as_str()),
            Value::Object(_) => Number::NaN,
        }
    }

    pub fn coerce_to_i32(&self) -> (r: i32)
        ensures
            r == to_i32(self@),
    {
        match self.coerce_to_number() {
            Number::Int(n) => n as i32,
            Number::NaN => 0,
        }
    }

    pub fn coerce_to_u32(&self) -> (r: u32)
        ensures
            r == to_u32(self@),
    {
        match self.coerce_to_number() {
            Number::Int(n) => n as u32,
            Number::NaN => 0,
        }
    }

    pub fn coerce_to_string(&self) -> (r: String)
        ensures
            r@ == to_text(self@),
    {
        match self {
            Value::Undefined => String::from_str("undefined"),
            Value::Null => String::from_str("null"),
            Value::Bool(b) => if *b {
                String::from_str("true")
            } else {
                String::from_str("false")
            },
            Value::Number(Number::Int(n)) => format_int(*n),
            Value::Number(Number::NaN) => String::from_str("NaN"),
            Value::String(s) => s.clone(),
            Value::Object(_) => String::from_str("[object Object]"),
        }
    }
}

} // verus!
