//! JSON values as plain data: what a post-install step is read from.

use vstd::prelude::*;

use crate::text;

verus! {

/// A JSON value. A number is kept as the text it is written with; the members
/// of an object are kept in order.
pub enum Json {
    Null,
    Bool(bool),
    Number(String),
    Str(String),
    Array(Vec<Json>),
    Object(Vec<(String, Json)>),
}

/// The value that a `Json` stands for.
pub enum JsonV {
    Null,
    Bool(bool),
    Number(Seq<char>),
    Str(Seq<char>),
    Array(Seq<JsonV>),
    Object(Seq<(Seq<char>, JsonV)>),
}

impl JsonV {
    /// The member `key` of an object.
    pub open spec fn get(self, key: Seq<char>) -> Option<JsonV> {
        match self {
            JsonV::Object(members) => member(members, key),
            _ => None,
        }
    }

    /// The text of a string value.
    pub open spec fn as_str(self) -> Option<Seq<char>> {
        match self {
            JsonV::Str(s) => Some(s),
            _ => None,
        }
    }

    /// The truth value of a boolean.
    pub open spec fn as_bool(self) -> Option<bool> {
        match self {
            JsonV::Bool(b) => Some(b),
            _ => None,
        }
    }

    /// The items of an array.
    pub open spec fn as_array(self) -> Option<Seq<JsonV>> {
        match self {
            JsonV::Array(items) => Some(items),
            _ => None,
        }
    }

    /// The members of an object.
    pub open spec fn as_object(self) -> Option<Seq<(Seq<char>, JsonV)>> {
        match self {
            JsonV::Object(members) => Some(members),
            _ => None,
        }
    }

    /// The text of the member `key`, where it is a string.
    pub open spec fn str_at(self, key: Seq<char>) -> Option<Seq<char>> {
        match self.get(key) {
            Some(v) => v.as_str(),
            None => None,
        }
    }

    /// The truth value of the member `key`, where it is a boolean; `default`
    /// otherwise.
    pub open spec fn flag_at(self, key: Seq<char>, default: bool) -> bool {
        match self.get(key) {
            Some(JsonV::Bool(b)) => b,
            _ => default,
        }
    }
}

/// The first member named `key`.
pub open spec fn member(members: Seq<(Seq<char>, JsonV)>, key: Seq<char>) -> Option<JsonV>
    decreases members.len(),
{
    if members.len() == 0 {
        None
    } else if members[0].0 == key {
        Some(members[0].1)
    } else {
        member(members.skip(1), key)
    }
}

impl View for Json {
    type V = JsonV;

    open spec fn view(&self) -> JsonV {
        model(*self)
    }
}

/// The value that `j` stands for.
pub open spec fn model(j: Json) -> JsonV
    decreases j,
{
    match j {
        Json::Null => JsonV::Null,
        Json::Bool(b) => JsonV::Bool(b),
        Json::Number(n) => JsonV::Number(n@),
        Json::Str(s) => JsonV::Str(s@),
        Json::Array(items) => JsonV::Array(
            Seq::new(
                items@.len(),
                |i: int|
                    if 0 <= i < items@.len() {
                        model(items[i])
                    } else {
                        JsonV::Null
                    },
            ),
        ),
        Json::Object(members) => JsonV::Object(
            Seq::new(
                members@.len(),
                |i: int|
                    if 0 <= i < members@.len() {
                        (members[i].0@, model(members[i].1))
                    } else {
                        (Seq::empty(), JsonV::Null)
                    },
            ),
        ),
    }
}

/// The values that a sequence of `Json`s stands for.
pub open spec fn models(v: Seq<Json>) -> Seq<JsonV> {
    Seq::new(v.len(), |i: int| v[i]@)
}

/// The value behind an optional reference.
pub open spec fn found(r: Option<&Json>) -> Option<JsonV> {
    match r {
        Some(j) => Some(j@),
        None => None,
    }
}

impl Clone for Json {
    /// A copy that stands for the same value.
    fn clone(&self) -> (r: Json)
        ensures
            r@ == self@,
        decreases *self,
    {
        match self {
            Json::Null => Json::Null,
            Json::Bool(b) => Json::Bool(*b),
            Json::Number(n) => Json::Number(n.clone()),
            Json::Str(s) => Json::Str(s.clone()),
            Json::Array(items) => {
                let mut out: Vec<Json> = Vec::new();
                for i in 0..items.len()
                    invariant
                        *self == Json::Array(*items),
                        out@.len() == i,
                        forall|k: int| 0 <= k < i ==> (#[trigger] out@[k])@ == items@[k]@,
                {
                    assert(decreases_to!(*self => self->Array_0));
                    assert(decreases_to!(*items => items[i as int]));
                    out.push(items[i].clone());
                }
                let r = Json::Array(out);
                assert(r@->Array_0 =~= self@->Array_0);
                r
            },
            Json::Object(members) => {
                let mut out: Vec<(String, Json)> = Vec::new();
                for i in 0..members.len()
                    invariant
                        *self == Json::Object(*members),
                        out@.len() == i,
                        forall|k: int|
                            0 <= k < i ==> (#[trigger] out@[k]).0@ == members@[k].0@ && out@[k].1@
                                == members@[k].1@,
                {
                    let m = &members[i];
                    assert(decreases_to!(*self => self->Object_0));
                    assert(decreases_to!(*members => members[i as int]));
                    assert(decreases_to!(members[i as int] => members[i as int].1));
                    out.push((m.0.clone(), m.1.clone()));
                }
                let r = Json::Object(out);
                assert(r@->Object_0 =~= self@->Object_0);
                r
            },
        }
    }
}

impl Json {
    /// The member `key` of an object.
    pub fn get(&self, key: &str) -> (r: Option<&Json>)
        ensures
            found(r) == self@.get(key@),
    {
        match self {
            Json::Object(members) => {
                let ghost ms = self@->Object_0;
                assert(ms.skip(0) =~= ms);
                for i in 0..members.len()
                    invariant
                        *self == Json::Object(*members),
                        ms == self@->Object_0,
                        member(ms.skip(i as int), key@) == member(ms, key@),
                {
                    if text::same(members[i].0.as_str(), key) {
                        return Some(&members[i].1);
                    }
                    assert(ms.skip(i as int).skip(1) =~= ms.skip(i + 1));
                }
                None
            },
            _ => None,
        }
    }

    /// The text of a string value.
    pub fn as_str(&self) -> (r: Option<&str>)
        ensures
            r is Some == self@.as_str() is Some,
            r matches Some(s) ==> s@ == self@.as_str()->0,
    {
        match self {
            Json::Str(s) => Some(s.as_str()),
            _ => None,
        }
    }

    /// The truth value of a boolean.
    pub fn as_bool(&self) -> (r: Option<bool>)
        ensures
            r == self@.as_bool(),
    {
        match self {
            Json::Bool(b) => Some(*b),
            _ => None,
        }
    }

    /// The items of an array.
    pub fn as_array(&self) -> (r: Option<&Vec<Json>>)
        ensures
            r is Some == self@.as_array() is Some,
            r matches Some(items) ==> models(items@) == self@.as_array()->0,
    {
        match self {
            Json::Array(items) => {
                assert(models(items@) =~= self@.as_array()->0);
                Some(items)
            },
            _ => None,
        }
    }

    /// The members of an object.
    pub fn as_object(&self) -> (r: Option<&Vec<(String, Json)>>)
        ensures
            r is Some == self@.as_object() is Some,
            r matches Some(members) ==> members@.len() == (self@.as_object()->0).len() && forall|i: int|
                0 <= i < members@.len() ==> (#[trigger] members@[i]).0@ == (self@.as_object()->0)[i].0
                    && members@[i].1@ == (self@.as_object()->0)[i].1,
    {
        match self {
            Json::Object(members) => Some(members),
            _ => None,
        }
    }

    /// The text of the member `key`, where it is a string.
    pub fn str_at(&self, key: &str) -> (r: Option<&str>)
        ensures
            r is Some == self@.str_at(key@) is Some,
            r matches Some(s) ==> s@ == self@.str_at(key@)->0,
    {
        match self.get(key) {
            Some(v) => v.as_str(),
            None => None,
        }
    }

    /// The truth value of the member `key`, or `default`.
    pub fn flag_at(&self, key: &str, default: bool) -> (r: bool)
        ensures
            r == self@.flag_at(key@, default),
    {
        match self.get(key) {
            Some(v) => match v.as_bool() {
                Some(b) => b,
                None => default,
            },
            None => default,
        }
    }
}

/// A copy of a list of values.
pub fn copy_all(v: &Vec<Json>) -> (r: Vec<Json>)
    ensures
        models(r@) == models(v@),
{
    let mut r: Vec<Json> = Vec::new();
    for i in 0..v.len()
        invariant
            r@.len() == i,
            forall|k: int| 0 <= k < i ==> (#[trigger] r@[k])@ == v@[k]@,
    {
        r.push(v[i].clone());
    }
    assert(models(r@) =~= models(v@));
    r
}

/// Law: a member is the value of the first entry with its key; where there is
/// none, or the value is no object, there is no member.
pub proof fn law_members_are_found_by_key(v: JsonV, key: Seq<char>)
    ensures
        v matches JsonV::Object(ms) ==> match v.get(key) {
            Some(m) => exists|i: int|
                0 <= i < ms.len() && (#[trigger] ms[i]).0 == key && ms[i].1 == m && forall|k: int|
                    0 <= k < i ==> (#[trigger] ms[k]).0 != key,
            None => forall|k: int| 0 <= k < ms.len() ==> (#[trigger] ms[k]).0 != key,
        },
        !(v is Object) ==> v.get(key) is None,
{
    if let JsonV::Object(ms) = v {
        lemma_member(ms, key);
    }
}

proof fn lemma_member(ms: Seq<(Seq<char>, JsonV)>, key: Seq<char>)
    ensures
        match member(ms, key) {
            Some(m) => exists|i: int|
                0 <= i < ms.len() && (#[trigger] ms[i]).0 == key && ms[i].1 == m && forall|k: int|
                    0 <= k < i ==> (#[trigger] ms[k]).0 != key,
            None => forall|k: int| 0 <= k < ms.len() ==> (#[trigger] ms[k]).0 != key,
        },
    decreases ms.len(),
{
    if ms.len() > 0 {
        if ms[0].0 == key {
            assert(ms[0].1 == member(ms, key)->0);
        } else {
            let rest = ms.skip(1);
            lemma_member(rest, key);
            match member(rest, key) {
                Some(m) => {
                    let i = choose|i: int|
                        0 <= i < rest.len() && (#[trigger] rest[i]).0 == key && rest[i].1 == m && forall|k: int|
                            0 <= k < i ==> (#[trigger] rest[k]).0 != key;
                    assert(ms[i + 1].0 == key);
                    assert forall|k: int| 0 <= k < i + 1 implies (#[trigger] ms[k]).0 != key by {
                        if k > 0 {
                            assert(rest[k - 1] == ms[k]);
                        }
                    }
                },
                None => {
                    assert forall|k: int| 0 <= k < ms.len() implies (#[trigger] ms[k]).0 != key by {
                        if k > 0 {
                            assert(rest[k - 1] == ms[k]);
                        }
                    }
                },
            }
        }
    }
}

/// Law: a member counts as text, as a flag or as a list only where it is a
/// string, a boolean or an array; a flag that is none has its default.
pub proof fn law_members_keep_their_kind(v: JsonV, key: Seq<char>, default: bool)
    ensures
        v.str_at(key) matches Some(s) ==> v.get(key) == Some(JsonV::Str(s)),
        v.get(key) matches Some(JsonV::Str(s)) ==> v.str_at(key) == Some(s),
        v.get(key) matches Some(JsonV::Bool(b)) ==> v.flag_at(key, default) == b,
        !(v.get(key) matches Some(JsonV::Bool(_))) ==> v.flag_at(key, default) == default,
        v.as_array() matches Some(items) ==> v == JsonV::Array(items),
        v matches JsonV::Array(items) ==> v.as_array() == Some(items),
        v.as_object() matches Some(ms) ==> v == JsonV::Object(ms),
        v matches JsonV::Object(ms) ==> v.as_object() == Some(ms),
        v.as_bool() matches Some(b) ==> v == JsonV::Bool(b),
        v matches JsonV::Bool(b) ==> v.as_bool() == Some(b),
        v.as_str() matches Some(s) ==> v == JsonV::Str(s),
        v matches JsonV::Str(s) ==> v.as_str() == Some(s),
{
}

/// Law: what is found stands for what is there, and a list of values for the
/// values of the list, in order.
pub proof fn law_values_are_read_as_they_are(r: Option<&Json>, v: Seq<Json>, i: int)
    ensures
        found(r) is Some <==> r is Some,
        r matches Some(j) ==> found(r) == Some(j@),
        models(v).len() == v.len(),
        0 <= i < v.len() ==> models(v)[i] == v[i]@,
{
}

} // verus!
