//! The data of a feature library: features, their traits, tag queries and
//! the values that traits assign.

use vstd::prelude::*;
use crate::roll::RollExpr;

verus! {

/// A value that a trait assigns to a name.
#[derive(Debug)]
pub enum Value {
    Int(i64),
    Text(String),
    Bool(bool),
}

impl Value {
    /// A copy of the value.
    pub fn duplicate(&self) -> (r: Value)
        ensures
            r == *self,
    {
        match self {
            Value::Int(n) => Value::Int(*n),
            Value::Text(s) => Value::Text(s.clone()),
            Value::Bool(b) => Value::Bool(*b),
        }
    }
}

/// A named rule fragment: an identifier, a set of tags, and traits applied
/// in order.
#[derive(Debug)]
pub struct Feature {
    pub id: String,
    pub tags: Vec<String>,
    pub traits: Vec<Trait>,
}

/// The features that a store is built from.
#[derive(Debug)]
pub struct Library {
    pub features: Vec<Feature>,
}

/// One effect of a feature.
#[derive(Debug)]
pub enum Trait {
    /// Sets `name` to `value`.
    Data { name: String, value: Value },
    /// Adds the integer `value` to the integer already held by `name`.
    Add { name: String, value: Value },
    /// Offers the features that `query` selects, and evaluates the one chosen.
    Choice { id: String, query: Query, default: Option<String> },
    /// Evaluates the feature `id` in place.
    Ref { id: String },
    /// Binds `name` to a roll of `expr`, once per evaluation.
    Roll { name: String, expr: RollExpr },
}

/// A filter over a feature's tags: `And` matches the features that every
/// one of its queries matches, `Or` those that carry at least one of its tags.
#[derive(Debug)]
pub enum Query {
    Meta(Meta),
    And(Vec<Query>),
    Or(Vec<Meta>),
}

/// Matches the features that carry `tag`.
#[derive(Debug)]
pub struct Meta {
    pub tag: String,
}

/// `tags` holds the tag `t`.
pub open spec fn has_tag(tags: Seq<String>, t: Seq<char>) -> bool {
    exists|i: int| 0 <= i < tags.len() && (#[trigger] tags[i])@ == t
}

impl Query {
    /// Whether a feature with the tags `tags` satisfies the query.
    pub open spec fn matches(&self, tags: Seq<String>) -> bool
        decreases self,
    {
        match self {
            Query::Meta(m) => has_tag(tags, m.tag@),
            Query::And(a) => forall|i: int|
                0 <= i < a@.len() ==> (#[trigger] a@[i]).matches(tags),
            Query::Or(o) => exists|i: int|
                0 <= i < o@.len() && has_tag(tags, (#[trigger] o@[i]).tag@),
        }
    }

    /// Decides `matches`.
    pub fn test(&self, tags: &Vec<String>) -> (r: bool)
        ensures
            r == self.matches(tags@),
        decreases self,
    {
        match self {
            Query::Meta(m) => contains_tag(tags, &m.tag),
            Query::And(a) => {
                let mut i: usize = 0;
                while i < a.len()
                    invariant
                        i <= a@.len(),
                        *self == Query::And(*a),
                        forall|j: int| 0 <= j < i ==> (#[trigger] a@[j]).matches(tags@),
                    decreases a@.len() - i,
                {
                    proof {
                        assert(decreases_to!(*self => self->And_0));
                        assert(decreases_to!(self->And_0 => self->And_0@));
                        assert(decreases_to!(self->And_0@ => self->And_0@[i as int]));
                    }
                    if !a[i].test(tags) {
                        assert(!a@[i as int].matches(tags@));
                        return false;
                    }
                    i = i + 1;
                }
                true
            },
            Query::Or(o) => {
                let mut i: usize = 0;
                while i < o.len()
                    invariant
                        i <= o@.len(),
                        *self == Query::Or(*o),
                        forall|j: int|
                            0 <= j < i ==> !has_tag(tags@, (#[trigger] o@[j]).tag@),
                    decreases o@.len() - i,
                {
                    if contains_tag(tags, &o[i].tag) {
                        assert(has_tag(tags@, self->Or_0@[i as int].tag@));
                        assert(self.matches(tags@));
                        return true;
                    }
                    i = i + 1;
                }
                false
            },
        }
    }
}

/// Decides `has_tag`.
pub fn contains_tag(tags: &Vec<String>, t: &String) -> (r: bool)
    ensures
        r == has_tag(tags@, t@),
{
    let mut i: usize = 0;
    while i < tags.len()
        invariant
            i <= tags@.len(),
            forall|j: int| 0 <= j < i ==> (#[trigger] tags@[j])@ != t@,
        decreases tags@.len() - i,
    {
        if tags[i] == *t {
            return true;
        }
        i = i + 1;
    }
    false
}

} // verus!
