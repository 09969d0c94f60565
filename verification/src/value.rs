//! JSON values and Lua values, and the conversions between them that the script interface uses.
//!
//! Floating-point numbers are carried as the bits of an IEEE-754 double (`f64::to_bits`).
use vstd::prelude::*;
use vstd::utf8::{decode_utf8, encode_utf8, valid_utf8};

use crate::archive::{utf8_error_message, utf8_error_text, utf8_str};
use crate::error::joined;
use crate::text::chars_of;

verus! {

/// A JSON number, as `serde_json` keeps one: a non-negative integer, a negative integer, or a
/// finite double (its bits).
#[derive(Clone, Copy, Debug, PartialEq, Eq)]
pub enum JsonNumber {
    PosInt(u64),
    NegInt(i64),
    Float(u64),
}

/// A JSON value. Object members keep their order here; JSON objects are maps.
#[derive(Debug, PartialEq)]
pub enum JsonValue {
    Null,
    Bool(bool),
    Number(JsonNumber),
    Str(String),
    Array(Vec<JsonValue>),
    Object(Vec<(String, JsonValue)>),
}

/// A JSON value as mathematics sees it.
pub enum Json {
    Null,
    Bool(bool),
    Number(JsonNumber),
    Str(Seq<char>),
    Array(Seq<Json>),
    Object(Seq<(Seq<char>, Json)>),
}

/// What the JSON value `v` stands for.
pub open spec fn json_model(v: JsonValue) -> Json
    decreases v,
{
    match v {
        JsonValue::Null => Json::Null,
        JsonValue::Bool(b) => Json::Bool(b),
        JsonValue::Number(n) => Json::Number(n),
        JsonValue::Str(s) => Json::Str(s@),
        JsonValue::Array(a) => Json::Array(json_models(a@)),
        JsonValue::Object(o) => Json::Object(json_members(o@)),
    }
}

/// What the JSON values `s` stand for.
pub open spec fn json_models(s: Seq<JsonValue>) -> Seq<Json>
    decreases s,
{
    if s.len() == 0 {
        seq![]
    } else {
        json_models(s.drop_last()).push(json_model(s.last()))
    }
}

/// What the object members `s` stand for.
pub open spec fn json_members(s: Seq<(String, JsonValue)>) -> Seq<(Seq<char>, Json)>
    decreases s,
{
    if s.len() == 0 {
        seq![]
    } else {
        json_members(s.drop_last()).push((s.last().0@, json_model(s.last().1)))
    }
}

impl View for JsonValue {
    type V = Json;

    open spec fn view(&self) -> Json {
        json_model(*self)
    }
}

/// A Lua value as the script interface reads and makes them. Strings are byte strings; numbers
/// are doubles (their bits); `Other` stands for nil, functions, userdata and threads.
#[derive(Debug, PartialEq)]
pub enum LuaValue {
    Boolean(bool),
    Integer(i64),
    Number(u64),
    Str(Vec<u8>),
    Table(Vec<(LuaValue, LuaValue)>),
    Other,
}

/// A Lua value as mathematics sees it.
pub enum Lua {
    Boolean(bool),
    Integer(i64),
    Number(u64),
    Str(Seq<u8>),
    Table(Seq<(Lua, Lua)>),
    Other,
}

/// What the Lua value `v` stands for.
pub open spec fn lua_model(v: LuaValue) -> Lua
    decreases v,
{
    match v {
        LuaValue::Boolean(b) => Lua::Boolean(b),
        LuaValue::Integer(i) => Lua::Integer(i),
        LuaValue::Number(n) => Lua::Number(n),
        LuaValue::Str(s) => Lua::Str(s@),
        LuaValue::Table(t) => Lua::Table(lua_pairs(t@)),
        LuaValue::Other => Lua::Other,
    }
}

/// What the table entries `s` stand for.
pub open spec fn lua_pairs(s: Seq<(LuaValue, LuaValue)>) -> Seq<(Lua, Lua)>
    decreases s,
{
    if s.len() == 0 {
        seq![]
    } else {
        lua_pairs(s.drop_last()).push((lua_model(s.last().0), lua_model(s.last().1)))
    }
}

impl View for LuaValue {
    type V = Lua;

    open spec fn view(&self) -> Lua {
        lua_model(*self)
    }
}

/// The Lua string `null`.
pub open spec fn null_bytes() -> Seq<u8> {
    seq![110u8, 117u8, 108u8, 108u8]
}

/// The bits of the double nearest to `u` (ties to the even one), for `u` of 2^63 or more: the
/// top 53 bits rounded, exponent 63.
pub open spec fn high_u64_to_f64_bits(u: u64) -> u64 {
    let q = u / 2048;
    let r = u % 2048;
    let m: int = if r > 1024 || (r == 1024 && q % 2 == 1) {
        q + 1
    } else {
        q as int
    };
    (0x43E0_0000_0000_0000 + m - 0x10_0000_0000_0000) as u64
}

/// The Lua number for a JSON number: an integer where it fits `i64`, else the nearest double.
pub open spec fn lua_number(n: JsonNumber) -> Lua {
    match n {
        JsonNumber::PosInt(u) => if u <= i64::MAX {
            Lua::Integer(u as i64)
        } else {
            Lua::Number(high_u64_to_f64_bits(u))
        },
        JsonNumber::NegInt(i) => Lua::Integer(i),
        JsonNumber::Float(bits) => Lua::Number(bits),
    }
}

/// The Lua value made from the JSON value `j`: null becomes the string `"null"`, arrays become
/// tables indexed from 1, objects tables keyed by member name.
pub open spec fn lua_of(j: Json) -> Lua
    decreases j,
{
    match j {
        Json::Null => Lua::Str(null_bytes()),
        Json::Bool(b) => Lua::Boolean(b),
        Json::Number(n) => lua_number(n),
        Json::Str(s) => Lua::Str(encode_utf8(s)),
        Json::Array(a) => Lua::Table(array_of(a)),
        Json::Object(o) => Lua::Table(members_of(o)),
    }
}

/// The table entries for the array items `s`: item `i` under the integer `i + 1`.
pub open spec fn array_of(s: Seq<Json>) -> Seq<(Lua, Lua)>
    decreases s,
{
    if s.len() == 0 {
        seq![]
    } else {
        array_of(s.drop_last()).push((Lua::Integer(s.len() as i64), lua_of(s.last())))
    }
}

/// The table entries for the object members `s`: each value under its name.
pub open spec fn members_of(s: Seq<(Seq<char>, Json)>) -> Seq<(Lua, Lua)>
    decreases s,
{
    if s.len() == 0 {
        seq![]
    } else {
        members_of(s.drop_last()).push((Lua::Str(encode_utf8(s.last().0)), lua_of(s.last().1)))
    }
}

fn high_to_f64_bits(u: u64) -> (b: u64)
    requires
        u > i64::MAX,
    ensures
        b == high_u64_to_f64_bits(u),
{
    let q = u / 2048;
    let r = u % 2048;
    let m = if r > 1024 || (r == 1024 && q % 2 == 1) {
        q + 1
    } else {
        q
    };
    assert(0x10_0000_0000_0000 <= q < 0x20_0000_0000_0000) by (nonlinear_arith)
        requires
            u > i64::MAX,
            q == u / 2048,
    ;
    0x43E0_0000_0000_0000 + m - 0x10_0000_0000_0000
}

/// The Lua value made from the JSON value `val` (see `lua_of`).
pub fn json_to_lua_value(val: &JsonValue) -> (r: LuaValue)
    ensures
        r@ == lua_of(val@),
    decreases val,
{
    match val {
        JsonValue::Null => {
            let v = vec![110u8, 117u8, 108u8, 108u8];
            assert(v@ =~= null_bytes());
            LuaValue::Str(v)
        },
        JsonValue::Bool(b) => LuaValue::Boolean(*b),
        JsonValue::Number(n) => match n {
            JsonNumber::PosInt(u) => if *u <= 0x7fff_ffff_ffff_ffff {
                LuaValue::Integer(*u as i64)
            } else {
                LuaValue::Number(high_to_f64_bits(*u))
            },
            JsonNumber::NegInt(i) => LuaValue::Integer(*i),
            JsonNumber::Float(bits) => LuaValue::Number(*bits),
        },
        JsonValue::Str(s) => LuaValue::Str(s.as_str().as_bytes_vec()),
        JsonValue::Array(a) => {
            let mut out: Vec<(LuaValue, LuaValue)> = Vec::new();
            let mut i: usize = 0;
            while i < a.len()
                invariant
                    *val == JsonValue::Array(*a),
                    i <= a@.len(),
                    lua_pairs(out@) == array_of(json_models(a@.take(i as int))),
                decreases a@.len() - i,
            {
                proof {
                    assert(decreases_to!(*val => (*val)->Array_0));
                    assert(decreases_to!(*a => a@));
                    assert(decreases_to!(a@ => a@[i as int]));
                }
                let item = json_to_lua_value(&a[i]);
                let index = (i + 1) as i64;
                let ghost before = out@;
                out.push((LuaValue::Integer(index), item));
                proof {
                    let t = a@.take(i + 1);
                    assert(t.drop_last() =~= a@.take(i as int));
                    assert(t.last() == a@[i as int]);
                    assert(t.len() == i + 1);
                    lemma_models_len(t);
                    assert(json_models(t).drop_last() =~= json_models(a@.take(i as int)));
                    assert(out@.drop_last() =~= before);
                    assert(out@.last() == (LuaValue::Integer(index), item));
                    assert(lua_model(item) == lua_of(json_model(a@[i as int])));
                    assert(lua_model(LuaValue::Integer(index)) == Lua::Integer(index));
                    assert(lua_pairs(out@) == lua_pairs(out@.drop_last()).push((lua_model(out@.last().0), lua_model(out@.last().1))));
                    assert(lua_pairs(out@) == lua_pairs(before).push(
                        (Lua::Integer(index), lua_of(json_model(a@[i as int]))),
                    ));
                }
                i = i + 1;
            }
            assert(a@.take(i as int) =~= a@);
            assert(val@ == Json::Array(json_models(a@)));
            LuaValue::Table(out)
        },
        JsonValue::Object(o) => {
            let mut out: Vec<(LuaValue, LuaValue)> = Vec::new();
            let mut i: usize = 0;
            while i < o.len()
                invariant
                    *val == JsonValue::Object(*o),
                    i <= o@.len(),
                    lua_pairs(out@) == members_of(json_members(o@.take(i as int))),
                decreases o@.len() - i,
            {
                proof {
                    assert(decreases_to!(*val => (*val)->Object_0));
                    assert(decreases_to!(*o => o@));
                    assert(decreases_to!(o@ => o@[i as int]));
                    assert(decreases_to!(o@[i as int] => o@[i as int].1));
                }
                let item = json_to_lua_value(&o[i].1);
                let name = o[i].0.as_str().as_bytes_vec();
                let ghost before = out@;
                out.push((LuaValue::Str(name), item));
                proof {
                    let t = o@.take(i + 1);
                    assert(t.drop_last() =~= o@.take(i as int));
                    assert(t.last() == o@[i as int]);
                    assert(json_members(t).drop_last() =~= json_members(o@.take(i as int)));
                    assert(out@.drop_last() =~= before);
                    assert(out@.last() == (LuaValue::Str(name), item));
                    assert(lua_model(item) == lua_of(json_model(o@[i as int].1)));
                    assert(lua_model(LuaValue::Str(name)) == Lua::Str(name@));
                    assert(lua_pairs(out@) == lua_pairs(out@.drop_last()).push((lua_model(out@.last().0), lua_model(out@.last().1))));
                    assert(lua_pairs(out@) == lua_pairs(before).push(
                        (Lua::Str(encode_utf8(o@[i as int].0@)), lua_of(json_model(o@[i as int].1))),
                    ));
                }
                i = i + 1;
            }
            assert(o@.take(i as int) =~= o@);
            LuaValue::Table(out)
        },
    }
}

/// Why a Lua value has no JSON form.
#[derive(Clone, Copy, Debug, PartialEq, Eq)]
pub enum LuaError {
    /// A string value is not UTF-8.
    NotText,
    /// A number is infinite or not a number.
    NotFinite,
    /// The value is nil, a function, userdata or a thread.
    Unsupported,
    /// An integer key does not continue the array (1, 2, 3, ...).
    BadIndex,
    /// A key is neither an integer nor a string.
    BadKeyType,
    /// A string key is not UTF-8.
    KeyNotText,
    /// A table has both integer and string keys.
    Mixed,
}

/// A Lua value that has no JSON form: why, the key it was stored under, and for a key that is
/// not UTF-8 the UTF-8 error's message (else nothing).
#[derive(Debug, PartialEq)]
pub struct ConvertError {
    pub kind: LuaError,
    pub key: String,
    pub detail: String,
}

/// The message of a conversion that failed with `kind` under `key`. For `KeyNotText` it is the
/// error's detail, which the script sees as a failed string conversion.
pub open spec fn convert_message(kind: LuaError, key: Seq<char>, detail: Seq<char>) -> Seq<char> {
    match kind {
        LuaError::NotText => "Cannot convert Define to string! key: "@ + key,
        LuaError::NotFinite => "Cannot convert Define to f64! key: "@ + key,
        LuaError::Unsupported => "Cannot convert Define to a valid value! key: "@ + key,
        LuaError::BadIndex => "not valid num key! key: "@ + key,
        LuaError::BadKeyType => "not valid num type! key: "@ + key,
        LuaError::KeyNotText => detail,
        LuaError::Mixed => "object and array is mixed! key: "@ + key,
    }
}

impl ConvertError {
    /// The message of this error (see `convert_message`).
    pub fn message(&self) -> (m: String)
        ensures
            m@ == convert_message(self.kind, self.key@, self.detail@),
    {
        let k = self.key.as_str();
        match self.kind {
            LuaError::NotText => joined("Cannot convert Define to string! key: ", k),
            LuaError::NotFinite => joined("Cannot convert Define to f64! key: ", k),
            LuaError::Unsupported => joined("Cannot convert Define to a valid value! key: ", k),
            LuaError::BadIndex => joined("not valid num key! key: ", k),
            LuaError::BadKeyType => joined("not valid num type! key: ", k),
            LuaError::KeyNotText => self.detail.clone(),
            LuaError::Mixed => joined("object and array is mixed! key: ", k),
        }
    }
}

/// The decimal digit `d`.
pub open spec fn digit_char(d: nat) -> char {
    ((d + 48) as u32) as char
}

/// `n` in decimal.
pub open spec fn decimal(n: nat) -> Seq<char>
    decreases n,
{
    if n < 10 {
        seq![digit_char(n)]
    } else {
        decimal(n / 10).push(digit_char(n % 10))
    }
}

/// `n` in decimal.
pub fn decimal_string(n: u64) -> (s: String)
    ensures
        s@ == decimal(n as nat),
    decreases n,
{
    let d = (n % 10) as u8;
    let c = (d + 48) as char;
    assert(c == digit_char((n % 10) as nat));
    if n < 10 {
        let mut s = String::new();
        s.push(c);
        assert(s@ =~= seq![c]);
        s
    } else {
        let mut s = decimal_string(n / 10);
        s.push(c);
        s
    }
}

/// Whether the double with these bits is finite: its exponent is not all ones.
pub open spec fn finite_bits(bits: u64) -> bool {
    (bits >> 52u64) & 0x7ff != 0x7ff
}

/// The JSON number for a Lua integer.
pub open spec fn integer_number(i: i64) -> JsonNumber {
    if i < 0 {
        JsonNumber::NegInt(i)
    } else {
        JsonNumber::PosInt(i as u64)
    }
}

/// The Lua strings `null` and `nil`, as characters.
pub open spec fn is_null_word(s: Seq<char>) -> bool {
    s == seq!['n', 'u', 'l', 'l'] || s == seq!['n', 'i', 'l']
}

/// The JSON form of the Lua value `v` stored under `key`: the strings `null` and `nil` become
/// null, other strings text; numbers must be finite; integers stay integers; a table becomes an
/// array (keys 1, 2, 3, ... in order) or an object (string keys), see `scan_table`. A failure
/// gives why, the key, and for a table key that is not UTF-8 the UTF-8 error's message (else
/// nothing).
pub open spec fn lua_to_json(key: Seq<char>, v: LuaValue) -> Result<Json, (LuaError, Seq<char>, Seq<char>)>
    decreases v, 0nat,
{
    match v {
        LuaValue::Str(bytes) => if !valid_utf8(bytes@) {
            Err((LuaError::NotText, key, seq![]))
        } else if is_null_word(decode_utf8(bytes@)) {
            Ok(Json::Null)
        } else {
            Ok(Json::Str(decode_utf8(bytes@)))
        },
        LuaValue::Number(bits) => if finite_bits(bits) {
            Ok(Json::Number(JsonNumber::Float(bits)))
        } else {
            Err((LuaError::NotFinite, key, seq![]))
        },
        LuaValue::Boolean(b) => Ok(Json::Bool(b)),
        LuaValue::Integer(i) => Ok(Json::Number(integer_number(i))),
        LuaValue::Table(t) => match scan_table(key, t@) {
            Err(e) => Err(e),
            Ok((items, members, is_object, is_array)) => if is_object && is_array {
                Err((LuaError::Mixed, key, seq![]))
            } else if is_array {
                Ok(Json::Array(items))
            } else {
                Ok(Json::Object(members))
            },
        },
        LuaValue::Other => Err((LuaError::Unsupported, key, seq![])),
    }
}

/// The table entries `pairs` (of the table stored under `key`) read in order: the array items
/// and object members so far, and whether string keys and integer keys were met. An integer key
/// must be one more than the number of items so far.
pub open spec fn scan_table(key: Seq<char>, pairs: Seq<(LuaValue, LuaValue)>) -> Result<
    (Seq<Json>, Seq<(Seq<char>, Json)>, bool, bool),
    (LuaError, Seq<char>, Seq<char>),
>
    decreases pairs, 0nat,
{
    if pairs.len() == 0 {
        Ok((seq![], seq![], false, false))
    } else {
        match scan_table(key, pairs.drop_last()) {
            Err(e) => Err(e),
            Ok((items, members, is_object, is_array)) => {
                let (k, v) = pairs.last();
                match k {
                    LuaValue::Integer(i) => if i == items.len() + 1 {
                        match lua_to_json(decimal(i as nat), v) {
                            Ok(j) => Ok((items.push(j), members, is_object, true)),
                            Err(e) => Err(e),
                        }
                    } else {
                        Err((LuaError::BadIndex, key, seq![]))
                    },
                    LuaValue::Str(bytes) => if !valid_utf8(bytes@) {
                        Err((LuaError::KeyNotText, key, utf8_error_message(bytes@)))
                    } else {
                        match lua_to_json(decode_utf8(bytes@), v) {
                            Ok(j) => Ok((items, members.push((decode_utf8(bytes@), j)), true, is_array)),
                            Err(e) => Err(e),
                        }
                    },
                    _ => Err((LuaError::BadKeyType, key, seq![])),
                }
            },
        }
    }
}

proof fn lemma_models_len(s: Seq<JsonValue>)
    ensures
        json_models(s).len() == s.len(),
    decreases s.len(),
{
    if s.len() > 0 {
        lemma_models_len(s.drop_last());
    }
}

proof fn lemma_scan_fails_early(key: Seq<char>, pairs: Seq<(LuaValue, LuaValue)>, j: int)
    requires
        0 <= j <= pairs.len(),
        scan_table(key, pairs.take(j)) is Err,
    ensures
        scan_table(key, pairs) == scan_table(key, pairs.take(j)),
    decreases pairs.len(),
{
    if j == pairs.len() {
        assert(pairs.take(j) =~= pairs);
    } else {
        assert(pairs.drop_last().take(j) =~= pairs.take(j));
        lemma_scan_fails_early(key, pairs.drop_last(), j);
    }
}

/// Whether `r` is the conversion result `s`.
pub open spec fn converted_as(r: Result<JsonValue, ConvertError>, s: Result<Json, (LuaError, Seq<char>, Seq<char>)>) -> bool {
    match s {
        Ok(j) => r matches Ok(v) && v@ == j,
        Err((e, k, d)) => r matches Err(x) && x.kind == e && x.key@ == k && x.detail@ == d,
    }
}

fn fail(kind: LuaError, key: &str) -> (e: ConvertError)
    ensures
        e.kind == kind,
        e.key@ == key@,
        e.detail@ == Seq::<char>::empty(),
{
    ConvertError { kind, key: String::from_str(key), detail: String::new() }
}

fn is_null_or_nil(s: &str) -> (r: bool)
    ensures
        r == is_null_word(s@),
{
    let cs = chars_of(s);
    let null_word = vec!['n', 'u', 'l', 'l'];
    let nil_word = vec!['n', 'i', 'l'];
    let r = chars_equal(cs.as_slice(), null_word.as_slice()) || chars_equal(
        cs.as_slice(),
        nil_word.as_slice(),
    );
    assert(null_word@ =~= seq!['n', 'u', 'l', 'l']);
    assert(nil_word@ =~= seq!['n', 'i', 'l']);
    r
}

/// Whether `a` and `b` hold the same characters.
pub fn chars_equal(a: &[char], b: &[char]) -> (r: bool)
    ensures
        r == (a@ == b@),
{
    if a.len() != b.len() {
        return false;
    }
    let mut i: usize = 0;
    while i < a.len()
        invariant
            a@.len() == b@.len(),
            0 <= i <= a@.len(),
            forall|j: int| 0 <= j < i ==> a@[j] == b@[j],
        decreases a@.len() - i,
    {
        if a[i] != b[i] {
            return false;
        }
        i = i + 1;
    }
    assert(a@ =~= b@);
    true
}

/// The JSON form of the Lua value `value` stored under `key` (see `lua_to_json`), or why it has
/// none.
pub fn lua_value_to_json(key: &str, value: &LuaValue) -> (r: Result<JsonValue, ConvertError>)
    ensures
        converted_as(r, lua_to_json(key@, *value)),
    decreases value,
{
    match value {
        LuaValue::Str(bytes) => match utf8_str(bytes.as_slice()) {
            None => Err(fail(LuaError::NotText, key)),
            Some(s) => if is_null_or_nil(s) {
                Ok(JsonValue::Null)
            } else {
                Ok(JsonValue::Str(String::from_str(s)))
            },
        },
        LuaValue::Number(bits) => {
            if (*bits >> 52u64) & 0x7ff != 0x7ff {
                Ok(JsonValue::Number(JsonNumber::Float(*bits)))
            } else {
                Err(fail(LuaError::NotFinite, key))
            }
        },
        LuaValue::Boolean(b) => Ok(JsonValue::Bool(*b)),
        LuaValue::Integer(i) => {
            if *i < 0 {
                Ok(JsonValue::Number(JsonNumber::NegInt(*i)))
            } else {
                Ok(JsonValue::Number(JsonNumber::PosInt(*i as u64)))
            }
        },
        LuaValue::Table(t) => {
            let mut items: Vec<JsonValue> = Vec::new();
            let mut members: Vec<(String, JsonValue)> = Vec::new();
            let mut is_object = false;
            let mut is_array = false;
            let mut i: usize = 0;
            assert(t@.take(0) =~= Seq::<(LuaValue, LuaValue)>::empty());
            assert(json_models(items@) =~= Seq::<Json>::empty());
            assert(json_members(members@) =~= Seq::<(Seq<char>, Json)>::empty());
            while i < t.len()
                invariant
                    *value == LuaValue::Table(*t),
                    i <= t@.len(),
                    scan_table(key@, t@.take(i as int)) == Ok::<
                        (Seq<Json>, Seq<(Seq<char>, Json)>, bool, bool),
                        (LuaError, Seq<char>, Seq<char>),
                    >((json_models(items@), json_members(members@), is_object, is_array)),
                decreases t@.len() - i,
            {
                proof {
                    assert(decreases_to!(*value => (*value)->Table_0));
                    assert(decreases_to!(*t => t@));
                    assert(decreases_to!(t@ => t@[i as int]));
                    assert(decreases_to!(t@[i as int] => t@[i as int].1));
                    let p = t@.take(i + 1);
                    assert(p.drop_last() =~= t@.take(i as int));
                    assert(p.last() == t@[i as int]);
                }
                let entry_value = &t[i].1;
                proof {
                    lemma_models_len(items@);
                }
                match &t[i].0 {
                    LuaValue::Integer(k) => {
                        if *k >= 1 && ((*k - 1) as u64) == (items.len() as u64) {
                            let child_key = decimal_string(*k as u64);
                            match lua_value_to_json(child_key.as_str(), entry_value) {
                                Ok(j) => {
                                    let ghost before = items@;
                                    items.push(j);
                                    assert(items@.drop_last() =~= before);
                                    is_array = true;
                                },
                                Err(e) => {
                                    proof {
                                        lemma_scan_fails_early(key@, t@, i + 1);
                                    }
                                    return Err(e);
                                },
                            }
                        } else {
                            proof {
                                lemma_scan_fails_early(key@, t@, i + 1);
                            }
                            return Err(fail(LuaError::BadIndex, key));
                        }
                    },
                    LuaValue::Str(bytes) => {
                        match utf8_str(bytes.as_slice()) {
                            None => {
                                proof {
                                    lemma_scan_fails_early(key@, t@, i + 1);
                                }
                                let detail = utf8_error_text(bytes.as_slice());
                                return Err(
                                    ConvertError {
                                        kind: LuaError::KeyNotText,
                                        key: String::from_str(key),
                                        detail,
                                    },
                                );
                            },
                            Some(name) => {
                                match lua_value_to_json(name, entry_value) {
                                    Ok(j) => {
                                        let ghost before = members@;
                                        members.push((String::from_str(name), j));
                                        assert(members@.drop_last() =~= before);
                                        is_object = true;
                                    },
                                    Err(e) => {
                                        proof {
                                            lemma_scan_fails_early(key@, t@, i + 1);
                                        }
                                        return Err(e);
                                    },
                                }
                            },
                        }
                    },
                    _ => {
                        proof {
                            lemma_scan_fails_early(key@, t@, i + 1);
                        }
                        return Err(fail(LuaError::BadKeyType, key));
                    },
                }
                i = i + 1;
            }
            assert(t@.take(i as int) =~= t@);
            if is_object && is_array {
                Err(fail(LuaError::Mixed, key))
            } else if is_array {
                Ok(JsonValue::Array(items))
            } else {
                Ok(JsonValue::Object(members))
            }
        },
        LuaValue::Other => Err(fail(LuaError::Unsupported, key)),
    }
}

/// Whether no string value inside `v` reads `nil` (table keys may).
pub open spec fn nil_free(v: LuaValue) -> bool
    decreases v, 0nat,
{
    match v {
        LuaValue::Str(bytes) => !(valid_utf8(bytes@) && decode_utf8(bytes@) == seq!['n', 'i', 'l']),
        LuaValue::Table(t) => pairs_nil_free(t@),
        _ => true,
    }
}

/// Whether no value among the table entries `s` holds a string `nil`.
pub open spec fn pairs_nil_free(s: Seq<(LuaValue, LuaValue)>) -> bool
    decreases s, 0nat,
{
    if s.len() == 0 {
        true
    } else {
        pairs_nil_free(s.drop_last()) && nil_free(s.last().1)
    }
}

proof fn lemma_null_bytes(bytes: Seq<u8>)
    requires
        valid_utf8(bytes),
        decode_utf8(bytes) == seq!['n', 'u', 'l', 'l'],
    ensures
        bytes == null_bytes(),
{
    vstd::utf8::decode_utf8_encode_utf8(bytes);
    lemma_null_text();
}

/// A Lua value stored as JSON and read back is the value it was: storing a value whose
/// conversion succeeds and that holds no string `nil`, then making a Lua value of the JSON,
/// gives the same value.
pub proof fn lemma_lua_json_round_trip(key: Seq<char>, v: LuaValue)
    requires
        lua_to_json(key, v) is Ok,
        nil_free(v),
    ensures
        lua_of(lua_to_json(key, v)->Ok_0) == lua_model(v),
    decreases v, 0nat,
{
    match v {
        LuaValue::Str(bytes) => {
            vstd::utf8::decode_utf8_encode_utf8(bytes@);
            if is_null_word(decode_utf8(bytes@)) {
                lemma_null_bytes(bytes@);
            }
        },
        LuaValue::Table(t) => {
            assert(decreases_to!(v => v->Table_0));
            assert(decreases_to!(v->Table_0 => t@));
            lemma_scan_round_trip(key, t@);
        },
        _ => {},
    }
}

/// Reading table entries back: an array's items, or an object's members, made into Lua table
/// entries again give the entries that were read.
pub proof fn lemma_scan_round_trip(key: Seq<char>, pairs: Seq<(LuaValue, LuaValue)>)
    requires
        scan_table(key, pairs) is Ok,
        pairs_nil_free(pairs),
    ensures
        ({
            let (items, members, is_object, is_array) = scan_table(key, pairs)->Ok_0;
            &&& !is_object ==> items.len() == pairs.len() && array_of(items) == lua_pairs(pairs)
            &&& !is_array ==> members_of(members) == lua_pairs(pairs)
        }),
    decreases pairs, 0nat,
{
    if pairs.len() > 0 {
        let rest = pairs.drop_last();
        lemma_scan_round_trip(key, rest);
        let (items, members, is_object, is_array) = scan_table(key, rest)->Ok_0;
        let (k, v) = pairs.last();
        assert(decreases_to!(pairs => pairs[pairs.len() - 1]));
        assert(decreases_to!(pairs[pairs.len() - 1] => pairs[pairs.len() - 1].1));
        match k {
            LuaValue::Integer(i) => {
                lemma_lua_json_round_trip(decimal(i as nat), v);
                let j = lua_to_json(decimal(i as nat), v)->Ok_0;
                let items2 = items.push(j);
                assert(items2.drop_last() =~= items);
                assert(items2.len() as i64 == i);
                assert(array_of(items2) == array_of(items).push((Lua::Integer(i), lua_of(j))));
                assert(lua_model(k) == Lua::Integer(i));
                assert(lua_pairs(pairs) == lua_pairs(rest).push((lua_model(k), lua_model(v))));
            },
            LuaValue::Str(bytes) => {
                vstd::utf8::decode_utf8_encode_utf8(bytes@);
                let name = decode_utf8(bytes@);
                lemma_lua_json_round_trip(name, v);
                let j = lua_to_json(name, v)->Ok_0;
                let members2 = members.push((name, j));
                assert(members2.drop_last() =~= members);
                assert(members_of(members2) == members_of(members).push(
                    (Lua::Str(encode_utf8(name)), lua_of(j)),
                ));
                assert(lua_model(k) == Lua::Str(bytes@));
                assert(lua_pairs(pairs) == lua_pairs(rest).push((lua_model(k), lua_model(v))));
            },
            _ => {},
        }
    }
}

/// Whether the JSON value `j` comes back from a Lua value unchanged: null, booleans, integers
/// that fit `i64` (negative ones as `NegInt`), finite doubles, strings other than `null` and
/// `nil`, objects, and non-empty arrays, all the way down.
pub open spec fn lua_round_trips(j: Json) -> bool
    decreases j,
{
    match j {
        Json::Null => true,
        Json::Bool(_) => true,
        Json::Number(n) => match n {
            JsonNumber::PosInt(u) => u <= i64::MAX,
            JsonNumber::NegInt(i) => i < 0,
            JsonNumber::Float(bits) => finite_bits(bits),
        },
        Json::Str(t) => !is_null_word(t),
        Json::Array(a) => 0 < a.len() <= i64::MAX && items_round_trip(a),
        Json::Object(o) => members_round_trip(o),
    }
}

/// Whether every item of `s` comes back unchanged.
pub open spec fn items_round_trip(s: Seq<Json>) -> bool
    decreases s,
{
    if s.len() == 0 {
        true
    } else {
        items_round_trip(s.drop_last()) && lua_round_trips(s.last())
    }
}

/// Whether every member value of `s` comes back unchanged.
pub open spec fn members_round_trip(s: Seq<(Seq<char>, Json)>) -> bool
    decreases s,
{
    if s.len() == 0 {
        true
    } else {
        members_round_trip(s.drop_last()) && lua_round_trips(s.last().1)
    }
}

proof fn lemma_text_bytes(t: Seq<char>)
    ensures
        valid_utf8(encode_utf8(t)),
        decode_utf8(encode_utf8(t)) == t,
{
    vstd::utf8::encode_utf8_valid_utf8(t);
    vstd::utf8::encode_utf8_decode_utf8(t);
}

proof fn lemma_null_text()
    ensures
        encode_utf8(seq!['n', 'u', 'l', 'l']) == null_bytes(),
        valid_utf8(null_bytes()),
        decode_utf8(null_bytes()) == seq!['n', 'u', 'l', 'l'],
{
    let cs = seq!['n', 'u', 'l', 'l'];
    assert(vstd::utf8::is_ascii_chars(cs));
    vstd::utf8::is_ascii_chars_encode_utf8(cs);
    assert(encode_utf8(cs)[0] == cs[0] as u8);
    assert(encode_utf8(cs)[1] == cs[1] as u8);
    assert(encode_utf8(cs)[2] == cs[2] as u8);
    assert(encode_utf8(cs)[3] == cs[3] as u8);
    assert(encode_utf8(cs) =~= null_bytes());
    lemma_text_bytes(cs);
}

proof fn lemma_array_of_len(a: Seq<Json>)
    ensures
        array_of(a).len() == a.len(),
    decreases a.len(),
{
    if a.len() > 0 {
        lemma_array_of_len(a.drop_last());
    }
}

proof fn lemma_members_of_len(o: Seq<(Seq<char>, Json)>)
    ensures
        members_of(o).len() == o.len(),
    decreases o.len(),
{
    if o.len() > 0 {
        lemma_members_of_len(o.drop_last());
    }
}

proof fn lemma_lua_pairs_len(p: Seq<(LuaValue, LuaValue)>)
    ensures
        lua_pairs(p).len() == p.len(),
    decreases p.len(),
{
    if p.len() > 0 {
        lemma_lua_pairs_len(p.drop_last());
    }
}

/// A JSON value made into a Lua value and converted back is the value it was, for every value
/// that `lua_round_trips` admits: whichever Lua value stands for `lua_of(j)`, its JSON form under
/// any key is `j`.
pub proof fn lemma_json_lua_round_trip(key: Seq<char>, v: LuaValue, j: Json)
    requires
        lua_round_trips(j),
        v@ == lua_of(j),
    ensures
        lua_to_json(key, v) == Ok::<Json, (LuaError, Seq<char>, Seq<char>)>(j),
    decreases v, 0nat,
{
    match j {
        Json::Null => {
            lemma_null_text();
        },
        Json::Str(t) => {
            lemma_text_bytes(t);
        },
        Json::Array(a) => {
            let t = v->Table_0;
            assert(decreases_to!(v => v->Table_0));
            assert(decreases_to!(v->Table_0 => t@));
            lemma_scan_array(key, t@, a);
        },
        Json::Object(o) => {
            let t = v->Table_0;
            assert(decreases_to!(v => v->Table_0));
            assert(decreases_to!(v->Table_0 => t@));
            lemma_scan_object(key, t@, o);
        },
        _ => {},
    }
}

/// Table entries made from array items are read back as those items.
proof fn lemma_scan_array(key: Seq<char>, pairs: Seq<(LuaValue, LuaValue)>, a: Seq<Json>)
    requires
        lua_pairs(pairs) == array_of(a),
        items_round_trip(a),
        a.len() <= i64::MAX,
    ensures
        scan_table(key, pairs) == Ok::<
            (Seq<Json>, Seq<(Seq<char>, Json)>, bool, bool),
            (LuaError, Seq<char>, Seq<char>),
        >((a, seq![], false, a.len() > 0)),
    decreases pairs, 0nat,
{
    lemma_lua_pairs_len(pairs);
    lemma_array_of_len(a);
    if pairs.len() == 0 {
        assert(a =~= Seq::<Json>::empty());
    } else {
        let rest = pairs.drop_last();
        let ar = a.drop_last();
        assert(lua_pairs(rest) =~= lua_pairs(pairs).drop_last());
        assert(array_of(ar) =~= array_of(a).drop_last());
        lemma_scan_array(key, rest, ar);
        lemma_array_of_len(ar);
        let (k, w) = pairs.last();
        assert(lua_pairs(pairs).last() == (lua_model(k), lua_model(w)));
        assert(array_of(a).last() == (Lua::Integer(a.len() as i64), lua_of(a.last())));
        assert(decreases_to!(pairs => pairs[pairs.len() - 1]));
        assert(decreases_to!(pairs[pairs.len() - 1] => pairs[pairs.len() - 1].1));
        let i = k->Integer_0;
        assert(i == ar.len() + 1);
        lemma_json_lua_round_trip(decimal(i as nat), w, a.last());
        assert(ar.push(a.last()) =~= a);
    }
}

/// Table entries made from object members are read back as those members.
proof fn lemma_scan_object(key: Seq<char>, pairs: Seq<(LuaValue, LuaValue)>, o: Seq<(Seq<char>, Json)>)
    requires
        lua_pairs(pairs) == members_of(o),
        members_round_trip(o),
    ensures
        scan_table(key, pairs) == Ok::<
            (Seq<Json>, Seq<(Seq<char>, Json)>, bool, bool),
            (LuaError, Seq<char>, Seq<char>),
        >((seq![], o, o.len() > 0, false)),
    decreases pairs, 0nat,
{
    lemma_lua_pairs_len(pairs);
    lemma_members_of_len(o);
    if pairs.len() == 0 {
        assert(o =~= Seq::<(Seq<char>, Json)>::empty());
    } else {
        let rest = pairs.drop_last();
        let or = o.drop_last();
        assert(lua_pairs(rest) =~= lua_pairs(pairs).drop_last());
        assert(members_of(or) =~= members_of(o).drop_last());
        lemma_scan_object(key, rest, or);
        let (k, w) = pairs.last();
        assert(lua_pairs(pairs).last() == (lua_model(k), lua_model(w)));
        assert(members_of(o).last() == (Lua::Str(encode_utf8(o.last().0)), lua_of(o.last().1)));
        assert(decreases_to!(pairs => pairs[pairs.len() - 1]));
        assert(decreases_to!(pairs[pairs.len() - 1] => pairs[pairs.len() - 1].1));
        lemma_text_bytes(o.last().0);
        lemma_json_lua_round_trip(o.last().0, w, o.last().1);
        assert(or.push((o.last().0, o.last().1)) =~= o);
    }
}

} // verus!
