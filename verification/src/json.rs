//! JSON documents, as far as the tool reads and writes them.
use crate::text::same;
use vstd::prelude::*;

verus! {

/// A JSON value. A number is kept as it was written; an object is the list of its
/// members.
#[derive(Debug, PartialEq, Eq)]
pub enum Json {
    Null,
    Bool(bool),
    Number(String),
    Text(String),
    List(Vec<Json>),
    Object(Vec<(String, Json)>),
}

/// The value of the last member called `key`.
pub open spec fn last_member(members: Seq<(String, Json)>, key: Seq<char>) -> Option<Json>
    decreases members.len(),
{
    if members.len() == 0 {
        None
    } else if members.last().0@ == key {
        Some(members.last().1)
    } else {
        last_member(members.drop_last(), key)
    }
}

impl Json {
    /// The member of an object called `key`. Of members with one name the last
    /// counts. What is no object has no members.
    pub open spec fn member(self, key: Seq<char>) -> Option<Json> {
        match self {
            Json::Object(members) => last_member(members@, key),
            _ => None,
        }
    }

    /// The text of a string.
    pub open spec fn text(self) -> Option<Seq<char>> {
        match self {
            Json::Text(s) => Some(s@),
            _ => None,
        }
    }

    /// The truth value of a boolean.
    pub open spec fn truth(self) -> Option<bool> {
        match self {
            Json::Bool(b) => Some(b),
            _ => None,
        }
    }

    /// The member of an object called `key`.
    pub fn get(&self, key: &str) -> (r: Option<&Json>)
        ensures
            match r {
                Some(v) => self.member(key@) == Some(*v),
                None => self.member(key@) is None,
            },
    {
        match self {
            Json::Object(members) => {
                let mut i: usize = members.len();
                assert(members@.take(i as int) == members@);
                while i > 0
                    invariant
                        i <= members@.len(),
                        self.member(key@) == last_member(members@, key@),
                        last_member(members@.take(i as int), key@) == last_member(members@, key@),
                    decreases i,
                {
                    i = i - 1;
                    assert(members@.take(i + 1).drop_last() == members@.take(i as int));
                    if same(members[i].0.as_str(), key) {
                        return Some(&members[i].1);
                    }
                }
                None
            },
            _ => None,
        }
    }

    /// The text of a string; `None` for any other value.
    pub fn as_str(&self) -> (r: Option<&str>)
        ensures
            match r {
                Some(s) => self.text() == Some(s@),
                None => self.text() is None,
            },
    {
        match self {
            Json::Text(s) => Some(s.as_str()),
            _ => None,
        }
    }

    /// The truth value of a boolean; `None` for any other value.
    pub fn as_bool(&self) -> (r: Option<bool>)
        ensures
            r == self.truth(),
    {
        match self {
            Json::Bool(b) => Some(*b),
            _ => None,
        }
    }

    /// Tests whether this is the null value.
    pub fn is_null(&self) -> (r: bool)
        ensures
            r == (self is Null),
    {
        match self {
            Json::Null => true,
            _ => false,
        }
    }
}

/// A member is found under its name, and of several with one name the last; what is not
/// among the members is not found.
pub proof fn law_last_member_counts(members: Seq<(String, Json)>, key: Seq<char>)
    ensures
        match last_member(members, key) {
            Some(v) => exists|i: int|
                {
                    &&& 0 <= i < members.len()
                    &&& (#[trigger] members[i]).0@ == key
                    &&& members[i].1 == v
                    &&& forall|j: int| i < j < members.len() ==> (#[trigger] members[j]).0@ != key
                },
            None => forall|i: int| 0 <= i < members.len() ==> (#[trigger] members[i]).0@ != key,
        },
    decreases members.len(),
{
    if members.len() > 0 && members.last().0@ != key {
        let rest = members.drop_last();
        law_last_member_counts(rest, key);
        match last_member(members, key) {
            Some(v) => {
                let i = choose|i: int|
                    {
                        &&& 0 <= i < rest.len()
                        &&& (#[trigger] rest[i]).0@ == key
                        &&& rest[i].1 == v
                        &&& forall|j: int| i < j < rest.len() ==> (#[trigger] rest[j]).0@ != key
                    };
                assert(members[i] == rest[i]);
                assert forall|j: int| i < j < members.len() implies (#[trigger] members[j]).0@ != key by {
                    if j < rest.len() {
                        assert(rest[j].0@ != key);
                    }
                }
            },
            None => {
                assert forall|i: int| 0 <= i < members.len() implies (#[trigger] members[i]).0@ != key by {
                    if i < rest.len() {
                        assert(rest[i].0@ != key);
                    }
                }
            },
        }
    } else if members.len() > 0 {
        assert(members[members.len() - 1].0@ == key);
    }
}

/// Only an object has members, only a string a text, only a boolean a truth value.
pub proof fn law_kinds_of_values(v: Json, key: Seq<char>)
    ensures
        match v {
            Json::Null => v.text() is None && v.truth() is None && v.member(key) is None,
            Json::Bool(b) => v.text() is None && v.truth() == Some(b) && v.member(key) is None,
            Json::Number(_) => v.text() is None && v.truth() is None && v.member(key) is None,
            Json::Text(s) => v.text() == Some(s@) && v.truth() is None && v.member(key) is None,
            Json::List(_) => v.text() is None && v.truth() is None && v.member(key) is None,
            Json::Object(members) => {
                v.text() is None && v.truth() is None && v.member(key) == last_member(members@, key)
            },
        },
{
}

} // verus!
