//! JSON values: what claims say.

use vstd::prelude::*;

use crate::order::text_equal;
use crate::text::hex_digit;

verus! {

/// A JSON value. A number is kept as its text.
#[derive(Debug, PartialEq, Eq)]
pub enum Value {
    Null,
    Bool(bool),
    Number(String),
    Text(String),
    Array(Vec<Value>),
    Object(Vec<(String, Value)>),
}

/// What a JSON value is.
#[verifier::ext_equal]
pub enum Json {
    Null,
    Bool(bool),
    Number(Seq<char>),
    Text(Seq<char>),
    Array(Seq<Json>),
    Object(Seq<(Seq<char>, Json)>),
}

/// What a list of values is.
pub open spec fn jsons(s: Seq<Value>) -> Seq<Json>
    decreases s,
{
    Seq::new(s.len(), |i: int|
        if 0 <= i < s.len() {
            s[i].json()
        } else {
            Json::Null
        })
}

/// What a list of members is.
pub open spec fn json_members(s: Seq<(String, Value)>) -> Seq<(Seq<char>, Json)>
    decreases s,
{
    Seq::new(s.len(), |i: int|
        if 0 <= i < s.len() {
            (s[i].0@, s[i].1.json())
        } else {
            (Seq::empty(), Json::Null)
        })
}

impl Value {
    pub open spec fn json(self) -> Json
        decreases self,
    {
        match self {
            Value::Null => Json::Null,
            Value::Bool(b) => Json::Bool(b),
            Value::Number(n) => Json::Number(n@),
            Value::Text(s) => Json::Text(s@),
            Value::Array(v) => Json::Array(jsons(v@)),
            Value::Object(v) => Json::Object(json_members(v@)),
        }
    }
}

impl View for Value {
    type V = Json;

    open spec fn view(&self) -> Json {
        self.json()
    }
}

/// The first member of that name.
pub open spec fn member_of(s: Seq<(Seq<char>, Json)>, key: Seq<char>) -> Option<Json>
    decreases s.len(),
{
    if s.len() == 0 {
        None
    } else if s[0].0 == key {
        Some(s[0].1)
    } else {
        member_of(s.drop_first(), key)
    }
}

impl Json {
    /// The member of that name, where the value is an object that has one.
    pub open spec fn get(self, key: Seq<char>) -> Option<Json> {
        match self {
            Json::Object(s) => member_of(s, key),
            _ => None,
        }
    }

    /// The text of the member of that name, where there is one and it is text.
    pub open spec fn text_at(self, key: Seq<char>) -> Option<Seq<char>> {
        match self.get(key) {
            Some(Json::Text(s)) => Some(s),
            _ => None,
        }
    }
}

/// A character as it stands in a JSON string.
pub open spec fn escaped_char(c: char) -> Seq<char> {
    if c == '"' {
        seq!['\\', '"']
    } else if c == '\\' {
        seq!['\\', '\\']
    } else if c as int == 8 {
        seq!['\\', 'b']
    } else if c as int == 9 {
        seq!['\\', 't']
    } else if c as int == 10 {
        seq!['\\', 'n']
    } else if c as int == 12 {
        seq!['\\', 'f']
    } else if c as int == 13 {
        seq!['\\', 'r']
    } else if (c as int) < 32 {
        seq!['\\', 'u', '0', '0', hex_digit(c as int / 16), hex_digit(c as int % 16)]
    } else {
        seq![c]
    }
}

/// A text as it stands in a JSON string.
pub open spec fn escaped(s: Seq<char>) -> Seq<char>
    decreases s.len(),
{
    if s.len() == 0 {
        Seq::empty()
    } else {
        escaped(s.drop_last()) + escaped_char(s.last())
    }
}

/// A text as a JSON string.
pub open spec fn quoted(s: Seq<char>) -> Seq<char> {
    seq!['"'] + escaped(s) + seq!['"']
}

/// Calls `serde_json::to_string` on a text, which does not fail: the text in double quotes, where quotes, backslashes
/// and control characters are escaped, the latter by their short form or else by four lower-case hexadecimal digits.
#[verifier::external_body]
fn quote(s: &str) -> (r: String)
    ensures
        r@ == quoted(s@),
{
    serde_json::to_string(s).unwrap()
}

/// The compact JSON text of a list's items.
pub open spec fn items_text(s: Seq<Json>) -> Seq<char>
    decreases s,
{
    if s.len() == 0 {
        Seq::empty()
    } else if s.len() == 1 {
        s[0].compact()
    } else {
        items_text(s.drop_last()) + seq![','] + s.last().compact()
    }
}

/// The compact JSON text of an object's members.
pub open spec fn members_text(s: Seq<(Seq<char>, Json)>) -> Seq<char>
    decreases s,
{
    if s.len() == 0 {
        Seq::empty()
    } else if s.len() == 1 {
        quoted(s[0].0) + seq![':'] + s[0].1.compact()
    } else {
        members_text(s.drop_last()) + seq![','] + (quoted(s.last().0) + seq![':'] + s.last().1.compact())
    }
}

impl Json {
    /// The compact JSON text.
    pub open spec fn compact(self) -> Seq<char>
        decreases self,
    {
        match self {
            Json::Null => "null"@,
            Json::Bool(b) => if b {
                "true"@
            } else {
                "false"@
            },
            Json::Number(n) => n,
            Json::Text(s) => quoted(s),
            Json::Array(s) => seq!['['] + items_text(s) + seq![']'],
            Json::Object(s) => seq!['{'] + members_text(s) + seq!['}'],
        }
    }
}

impl Value {
    /// A copy.
    pub fn duplicate(&self) -> (r: Value)
        ensures
            r@ == self@,
        decreases self,
    {
        match self {
            Value::Null => Value::Null,
            Value::Bool(b) => Value::Bool(*b),
            Value::Number(n) => Value::Number(n.clone()),
            Value::Text(s) => Value::Text(s.clone()),
            Value::Array(v) => {
                let mut out: Vec<Value> = Vec::new();
                let mut i: usize = 0;
                while i < v.len()
                    invariant
                        i <= v.len(),
                        *self == Value::Array(*v),
                        out@.len() == i,
                        forall|j: int| 0 <= j < i ==> (#[trigger] out@[j])@ == v@[j]@,
                    decreases v.len() - i,
                {
                    assert(decreases_to!(*self => self->Array_0@[i as int]));
                    out.push(v[i].duplicate());
                    i = i + 1;
                }
                assert(jsons(out@) =~= jsons(v@));
                Value::Array(out)
            },
            Value::Object(v) => {
                let mut out: Vec<(String, Value)> = Vec::new();
                let mut i: usize = 0;
                while i < v.len()
                    invariant
                        i <= v.len(),
                        *self == Value::Object(*v),
                        out@.len() == i,
                        forall|j: int| 0 <= j < i ==> (#[trigger] out@[j]).0@ == v@[j].0@ && out@[j].1@ == v@[j].1@,
                    decreases v.len() - i,
                {
                    assert(decreases_to!(*self => self->Object_0@[i as int].1));
                    out.push((v[i].0.clone(), v[i].1.duplicate()));
                    i = i + 1;
                }
                assert(json_members(out@) =~= json_members(v@));
                Value::Object(out)
            },
        }
    }

    /// The member of that name, where the value is an object that has one.
    pub fn get(&self, key: &str) -> (r: Option<&Value>)
        ensures
            self@.get(key@) == (match r {
                Some(v) => Some(v@),
                None => None::<Json>,
            }),
    {
        match self {
            Value::Object(v) => {
                let ghost all = json_members(v@);
                let mut i: usize = 0;
                assert(all.skip(0) =~= all);
                while i < v.len()
                    invariant
                        i <= v.len(),
                        *self == Value::Object(*v),
                        all == json_members(v@),
                        member_of(all, key@) == member_of(all.skip(i as int), key@),
                    decreases v.len() - i,
                {
                    assert(all.skip(i as int)[0] == (v@[i as int].0@, v@[i as int].1@));
                    assert(all.skip(i as int).drop_first() =~= all.skip(i + 1));
                    if text_equal(v[i].0.as_str(), key) {
                        return Some(&v[i].1);
                    }
                    i = i + 1;
                }
                assert(all.skip(i as int) =~= Seq::empty());
                None
            },
            _ => None,
        }
    }

    /// The text of the member of that name, where there is one and it is text.
    pub fn text_at(&self, key: &str) -> (r: Option<String>)
        ensures
            self@.text_at(key@) == (match r {
                Some(s) => Some(s@),
                None => None::<Seq<char>>,
            }),
    {
        match self.get(key) {
            Some(Value::Text(s)) => Some(s.clone()),
            _ => None,
        }
    }

    /// The compact JSON text.
    pub fn to_text(&self) -> (r: String)
        ensures
            r@ == self@.compact(),
        decreases self,
    {
        match self {
            Value::Null => "null".to_owned(),
            Value::Bool(b) => {
                if *b {
                    "true".to_owned()
                } else {
                    "false".to_owned()
                }
            },
            Value::Number(n) => n.clone(),
            Value::Text(s) => quote(s.as_str()),
            Value::Array(v) => {
                let mut out: String = "[".to_owned();
                let ghost all = jsons(v@);
                let mut i: usize = 0;
                proof {
                    reveal_strlit("[");
                    reveal_strlit(",");
                    reveal_strlit("]");
                    assert(all.take(0) =~= Seq::<Json>::empty());
                    assert(out@ =~= seq!['['] + items_text(all.take(0)));
                }
                while i < v.len()
                    invariant
                        i <= v.len(),
                        *self == Value::Array(*v),
                        all == jsons(v@),
                        ","@ == seq![','],
                        out@ == seq!['['] + items_text(all.take(i as int)),
                    decreases v.len() - i,
                {
                    let ghost next = all.take(i + 1);
                    proof {
                        assert(next.drop_last() =~= all.take(i as int));
                        assert(next.last() == v@[i as int]@);
                    }
                    if i > 0 {
                        out.append(",");
                    }
                    assert(decreases_to!(*self => self->Array_0@[i as int]));
                    let t: String = v[i].to_text();
                    out.append(t.as_str());
                    i = i + 1;
                    assert(out@ =~= seq!['['] + items_text(next));
                }
                assert(all.take(i as int) =~= all);
                out.append("]");
                assert("]"@ =~= seq![']']) by {
                    reveal_strlit("]");
                }
                out
            },
            Value::Object(v) => {
                let mut out: String = "{".to_owned();
                let ghost all = json_members(v@);
                let mut i: usize = 0;
                proof {
                    reveal_strlit("{");
                    reveal_strlit(",");
                    reveal_strlit(":");
                    assert(all.take(0) =~= Seq::<(Seq<char>, Json)>::empty());
                    assert(out@ =~= seq!['{'] + members_text(all.take(0)));
                }
                while i < v.len()
                    invariant
                        i <= v.len(),
                        *self == Value::Object(*v),
                        all == json_members(v@),
                        ","@ == seq![','],
                        ":"@ == seq![':'],
                        out@ == seq!['{'] + members_text(all.take(i as int)),
                    decreases v.len() - i,
                {
                    let ghost next = all.take(i + 1);
                    proof {
                        assert(next.drop_last() =~= all.take(i as int));
                        assert(next.last() == (v@[i as int].0@, v@[i as int].1@));
                    }
                    if i > 0 {
                        out.append(",");
                    }
                    let k: String = quote(v[i].0.as_str());
                    assert(decreases_to!(*self => self->Object_0@[i as int].1));
                    let t: String = v[i].1.to_text();
                    out.append(k.as_str());
                    out.append(":");
                    out.append(t.as_str());
                    i = i + 1;
                    assert(out@ =~= seq!['{'] + members_text(next));
                }
                assert(all.take(i as int) =~= all);
                out.append("}");
                assert("}"@ =~= seq!['}']) by {
                    reveal_strlit("}");
                }
                out
            },
        }
    }
}

} // verus!
