//! A plain-value JSON document tree, shared by the tensor-header checks and
//! the `tokenizer.json` loader.

use vstd::prelude::*;

use crate::text::chars_of;

pub use crate::json_text::parse;

verus! {

/// A JSON value.
///
/// Numbers keep their literal text; objects keep their members in order,
/// and a later member shadows an earlier one with the same key.
#[derive(Debug)]
pub enum JsonValue {
    /// JSON `null`.
    Null,
    /// A boolean.
    Bool(bool),
    /// A number, as written.
    Number(String),
    /// A string.
    String(String),
    /// An array.
    Array(Vec<JsonValue>),
    /// An object, as a list of members.
    Object(Vec<(String, JsonValue)>),
}

/// The mathematical content of a JSON document.
pub enum Json {
    Null,
    Bool(bool),
    Number(Seq<char>),
    Str(Seq<char>),
    Array(Seq<Json>),
    Object(Seq<(Seq<char>, Json)>),
}

/// The document a [`JsonValue`] holds.
pub open spec fn json_model(v: JsonValue) -> Json
    decreases v,
{
    match v {
        JsonValue::Null => Json::Null,
        JsonValue::Bool(b) => Json::Bool(b),
        JsonValue::Number(t) => Json::Number(t@),
        JsonValue::String(t) => Json::Str(t@),
        JsonValue::Array(a) => {
            proof {
                assert(decreases_to!(a => a@));
            }
            Json::Array(array_model(a@))
        },
        JsonValue::Object(m) => {
            proof {
                assert(decreases_to!(m => m@));
            }
            Json::Object(members_model(m@))
        },
    }
}

/// The documents held by a sequence of values.
pub open spec fn array_model(s: Seq<JsonValue>) -> Seq<Json>
    decreases s,
{
    if s.len() == 0 {
        Seq::empty()
    } else {
        array_model(s.drop_last()).push(json_model(s.last()))
    }
}

/// The `(key, document)` pairs held by a sequence of members.
pub open spec fn members_model(s: Seq<(String, JsonValue)>) -> Seq<(Seq<char>, Json)>
    decreases s,
{
    if s.len() == 0 {
        Seq::empty()
    } else {
        proof {
            assert(decreases_to!(s => s[s.len() - 1]));
        }
        members_model(s.drop_last()).push((s.last().0@, json_model(s.last().1)))
    }
}

impl View for JsonValue {
    type V = Json;

    open spec fn view(&self) -> Json {
        json_model(*self)
    }
}

/// `array_model` maps each element to its document.
pub proof fn lemma_array_model(s: Seq<JsonValue>)
    ensures
        array_model(s).len() == s.len(),
        forall|i: int| 0 <= i < s.len() ==> #[trigger] array_model(s)[i] == json_model(s[i]),
    decreases s.len(),
{
    if s.len() > 0 {
        lemma_array_model(s.drop_last());
    }
}

/// `members_model` maps each member to its key text and document.
pub proof fn lemma_members_model(s: Seq<(String, JsonValue)>)
    ensures
        members_model(s).len() == s.len(),
        forall|i: int|
            0 <= i < s.len() ==> #[trigger] members_model(s)[i] == (s[i].0@, json_model(s[i].1)),
    decreases s.len(),
{
    if s.len() > 0 {
        lemma_members_model(s.drop_last());
    }
}

/// ASCII decimal digits.
pub open spec fn is_digit(c: char) -> bool {
    '0' <= c && c <= '9'
}

/// Numeric value of a digit character.
pub open spec fn digit_val(c: char) -> nat {
    (c as nat - '0' as nat) as nat
}

/// The value of a string of decimal digits (0 for the empty string).
pub open spec fn digits_value(s: Seq<char>) -> nat
    decreases s.len(),
{
    if s.len() == 0 {
        0
    } else {
        digits_value(s.drop_last()) * 10 + digit_val(s.last())
    }
}

/// `s` is a non-empty run of decimal digits.
pub open spec fn all_digits(s: Seq<char>) -> bool {
    s.len() > 0 && forall|i: int| 0 <= i < s.len() ==> is_digit(#[trigger] s[i])
}

/// The unsigned integer a number literal denotes, when it is written as plain
/// digits and fits in `u64`.
pub open spec fn literal_u64(s: Seq<char>) -> Option<u64> {
    if all_digits(s) && digits_value(s) <= u64::MAX {
        Some(digits_value(s) as u64)
    } else {
        None
    }
}

proof fn lemma_digits_value_mono(s: Seq<char>, i: int)
    requires
        0 <= i <= s.len(),
        forall|k: int| 0 <= k < s.len() ==> is_digit(#[trigger] s[k]),
    ensures
        digits_value(s.take(i)) <= digits_value(s),
    decreases s.len() - i,
{
    if i < s.len() {
        lemma_digits_value_mono(s, i + 1);
        assert(s.take(i + 1).drop_last() =~= s.take(i));
    } else {
        assert(s.take(i) =~= s);
    }
}

/// Reads a plain-digit literal as `u64`.
pub fn literal_as_u64(text: &str) -> (r: Option<u64>)
    ensures
        r == literal_u64(text@),
{
    let cs = chars_of(text);
    if cs.len() == 0 {
        return None;
    }
    let mut v: u64 = 0;
    let mut i: usize = 0;
    while i < cs.len()
        invariant
            i <= cs.len(),
            cs@ == text@,
            cs.len() > 0,
            forall|k: int| 0 <= k < i ==> is_digit(#[trigger] cs@[k]),
            v as nat == digits_value(cs@.take(i as int)),
        decreases cs.len() - i,
    {
        let c = cs[i];
        if !('0' <= c && c <= '9') {
            proof {
                assert(!is_digit(cs@[i as int]));
            }
            return None;
        }
        let d = ((c as u32) - ('0' as u32)) as u64;
        proof {
            assert(cs@.take(i + 1).drop_last() =~= cs@.take(i as int));
        }
        match v.checked_mul(10) {
            None => {
                proof {
                    if all_digits(cs@) {
                        lemma_digits_value_mono(cs@, i + 1);
                    }
                }
                return None;
            },
            Some(m) => match m.checked_add(d) {
                None => {
                    proof {
                        if all_digits(cs@) {
                            lemma_digits_value_mono(cs@, i + 1);
                        }
                    }
                    return None;
                },
                Some(n) => {
                    v = n;
                },
            },
        }
        i = i + 1;
    }
    proof {
        assert(cs@.take(cs@.len() as int) =~= cs@);
    }
    Some(v)
}

/// The document of the last member named `key`, if any.
pub open spec fn member(entries: Seq<(Seq<char>, Json)>, key: Seq<char>) -> Option<Json>
    decreases entries.len(),
{
    if entries.len() == 0 {
        None
    } else if entries.last().0 == key {
        Some(entries.last().1)
    } else {
        member(entries.drop_last(), key)
    }
}

impl Json {
    /// The document of member `key`, if this is an object that has one.
    pub open spec fn get(self, key: Seq<char>) -> Option<Json> {
        match self {
            Json::Object(m) => member(m, key),
            _ => None,
        }
    }

    /// The unsigned integer this document denotes, if it is a number written
    /// as plain digits that fits in `u64`.
    pub open spec fn as_u64(self) -> Option<u64> {
        match self {
            Json::Number(t) => literal_u64(t),
            _ => None,
        }
    }

    /// The `u32` this document denotes, if it is a number written as plain
    /// digits no greater than `u32::MAX`.
    pub open spec fn as_u32(self) -> Option<u32> {
        match self.as_u64() {
            Some(n) => if n <= u32::MAX {
                Some(n as u32)
            } else {
                None
            },
            None => None,
        }
    }

    /// The text of this document, if it is a string.
    pub open spec fn as_str(self) -> Option<Seq<char>> {
        match self {
            Json::Str(t) => Some(t),
            _ => None,
        }
    }
}

/// Looks up `key` in an object's members (the last one wins).
pub fn find_member<'a>(entries: &'a Vec<(String, JsonValue)>, key: &str) -> (r: Option<
    &'a JsonValue,
>)
    ensures
        match member(members_model(entries@), key@) {
            Some(d) => r matches Some(v) && v@ == d,
            None => r is None,
        },
{
    let mut i: usize = entries.len();
    let k = key.to_owned();
    proof {
        lemma_members_model(entries@);
        assert(members_model(entries@).take(i as int) =~= members_model(entries@));
    }
    while i > 0
        invariant
            i <= entries.len(),
            k@ == key@,
            members_model(entries@).len() == entries@.len(),
            forall|j: int|
                0 <= j < entries@.len() ==> #[trigger] members_model(entries@)[j] == (
                    entries@[j].0@,
                    json_model(entries@[j].1),
                ),
            member(members_model(entries@), key@) == member(
                members_model(entries@).take(i as int),
                key@,
            ),
        decreases i,
    {
        let ghost pre = members_model(entries@).take(i as int);
        proof {
            assert(pre.drop_last() =~= members_model(entries@).take(i - 1));
            assert(pre.last() == members_model(entries@)[i - 1]);
        }
        if entries[i - 1].0 == k {
            return Some(&entries[i - 1].1);
        }
        i = i - 1;
    }
    None
}

impl JsonValue {
    /// Looks up a key in this value, if it is an object.
    pub fn get(&self, key: &str) -> (r: Option<&JsonValue>)
        ensures
            match self@.get(key@) {
                Some(d) => r matches Some(v) && v@ == d,
                None => r is None,
            },
    {
        match self {
            JsonValue::Object(m) => find_member(m, key),
            _ => None,
        }
    }

    /// Borrows this value as a string, if it is one.
    pub fn as_str(&self) -> (r: Option<&str>)
        ensures
            match self@.as_str() {
                Some(t) => r matches Some(x) && x@ == t,
                None => r is None,
            },
    {
        match self {
            JsonValue::String(s) => Some(s.as_str()),
            _ => None,
        }
    }

    /// Borrows this value's elements, if it is an array.
    pub fn as_array(&self) -> (r: Option<&Vec<JsonValue>>)
        ensures
            match self@ {
                Json::Array(d) => r matches Some(a) && array_model(a@) == d,
                _ => r is None,
            },
    {
        match self {
            JsonValue::Array(a) => Some(a),
            _ => None,
        }
    }

    /// Borrows this value's members, if it is an object.
    pub fn as_object(&self) -> (r: Option<&Vec<(String, JsonValue)>>)
        ensures
            match self@ {
                Json::Object(d) => r matches Some(m) && members_model(m@) == d,
                _ => r is None,
            },
    {
        match self {
            JsonValue::Object(m) => Some(m),
            _ => None,
        }
    }

    /// Reads this value as a `u64`, if it is a plain non-negative integer.
    pub fn as_u64(&self) -> (r: Option<u64>)
        ensures
            r == self@.as_u64(),
    {
        match self {
            JsonValue::Number(t) => literal_as_u64(t.as_str()),
            _ => None,
        }
    }

    /// Reads this value as a `u32` token id, if it is a plain non-negative
    /// integer that fits.
    pub fn as_u32(&self) -> (r: Option<u32>)
        ensures
            r == self@.as_u32(),
    {
        match self.as_u64() {
            Some(n) => if n <= 0xFFFF_FFFF {
                Some(n as u32)
            } else {
                None
            },
            None => None,
        }
    }

    /// A copy of this value.
    pub fn deep_clone(&self) -> (out: JsonValue)
        ensures
            out@ == self@,
        decreases self,
    {
        match self {
            JsonValue::Null => JsonValue::Null,
            JsonValue::Bool(b) => JsonValue::Bool(*b),
            JsonValue::Number(t) => JsonValue::Number(t.clone()),
            JsonValue::String(t) => JsonValue::String(t.clone()),
            JsonValue::Array(a) => {
                let mut out: Vec<JsonValue> = Vec::new();
                let mut i: usize = 0;
                while i < a.len()
                    invariant
                        i <= a.len(),
                        *self == JsonValue::Array(*a),
                        out@.len() == i,
                        forall|k: int| 0 <= k < i ==> (#[trigger] out@[k])@ == a@[k]@,
                    decreases a.len() - i,
                {
                    proof {
                        assert((*self)->Array_0 == *a);
                        assert(decreases_to!(*self => (*self)->Array_0));
                        assert(decreases_to!(*a => a@));
                        assert(decreases_to!(a@ => a@[i as int]));
                    }
                    out.push(a[i].deep_clone());
                    i = i + 1;
                }
                proof {
                    lemma_array_model(out@);
                    lemma_array_model(a@);
                    assert(array_model(out@) =~= array_model(a@));
                }
                JsonValue::Array(out)
            },
            JsonValue::Object(m) => {
                proof {
                    assert(decreases_to!(*self => *m));
                }
                JsonValue::Object(clone_members(m))
            },
        }
    }
}

/// A copy of an object's members.
pub fn clone_members(m: &Vec<(String, JsonValue)>) -> (out: Vec<(String, JsonValue)>)
    ensures
        members_model(out@) == members_model(m@),
    decreases m,
{
    let mut out: Vec<(String, JsonValue)> = Vec::new();
    let mut i: usize = 0;
    while i < m.len()
        invariant
            i <= m.len(),
            out@.len() == i,
            forall|k: int|
                0 <= k < i ==> (#[trigger] out@[k]).0@ == m@[k].0@ && out@[k].1@ == m@[k].1@,
        decreases m.len() - i,
    {
        proof {
            assert(decreases_to!(m => m@));
            assert(decreases_to!(m@ => m@[i as int]));
            assert(decreases_to!(m@[i as int] => m@[i as int].1));
        }
        let v = m[i].1.deep_clone();
        out.push((m[i].0.clone(), v));
        i = i + 1;
    }
    proof {
        lemma_members_model(out@);
        lemma_members_model(m@);
        assert(members_model(out@) =~= members_model(m@));
    }
    out
}

/// How `c` is written inside a JSON string literal.
pub open spec fn escaped_char(c: char) -> Seq<char> {
    if c == '"' {
        seq!['\\', '"']
    } else if c == '\\' {
        seq!['\\', '\\']
    } else if c == '\n' {
        seq!['\\', 'n']
    } else if c == '\r' {
        seq!['\\', 'r']
    } else if c == '\t' {
        seq!['\\', 't']
    } else {
        seq![c]
    }
}

/// The characters of `s`, each written as inside a JSON string literal.
pub open spec fn escaped(s: Seq<char>) -> Seq<char>
    decreases s.len(),
{
    if s.len() == 0 {
        Seq::empty()
    } else {
        escaped(s.drop_last()) + escaped_char(s.last())
    }
}

/// Appends `s` to `out` as a quoted JSON string literal, escaping quotes,
/// backslashes, newlines, carriage returns and tabs.
pub fn write_json_string(s: &str, out: &mut String)
    ensures
        final(out)@ == old(out)@ + seq!['"'] + escaped(s@) + seq!['"'],
{
    let cs = chars_of(s);
    let ghost start = out@;
    crate::text::push_char(out, '"');
    let mut i: usize = 0;
    while i < cs.len()
        invariant
            i <= cs.len(),
            cs@ == s@,
            out@ == start + seq!['"'] + escaped(s@.take(i as int)),
        decreases cs.len() - i,
    {
        let c = cs[i];
        let ghost before = out@;
        if c == '"' {
            crate::text::push_str(out, "\\\"");
        } else if c == '\\' {
            crate::text::push_str(out, "\\\\");
        } else if c == '\n' {
            crate::text::push_str(out, "\\n");
        } else if c == '\r' {
            crate::text::push_str(out, "\\r");
        } else if c == '\t' {
            crate::text::push_str(out, "\\t");
        } else {
            crate::text::push_char(out, c);
        }
        proof {
            reveal_strlit("\\\"");
            reveal_strlit("\\\\");
            reveal_strlit("\\n");
            reveal_strlit("\\r");
            reveal_strlit("\\t");
            assert(s@.take(i + 1).drop_last() =~= s@.take(i as int));
            assert(s@.take(i + 1).last() == c);
            assert(out@ =~= start + seq!['"'] + escaped(s@.take(i + 1)));
        }
        i = i + 1;
    }
    crate::text::push_char(out, '"');
    proof {
        assert(s@.take(i as int) =~= s@);
    }
}

} // verus!
