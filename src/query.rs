use vstd::prelude::*;

use crate::tags::{seq_begins_with, seq_contains, seq_ends_in, Tag, TagValue};

verus! {

/// A boolean expression over predicates on one tag.
#[derive(Debug)]
pub enum Query {
    Or(Box<Query>, Box<Query>),
    And(Box<Query>, Box<Query>),
    Eq(Tag),
    Contains(Tag),
    EndsIn(Tag),
    BeginsWith(Tag),
}

impl Query {
    /// Whether a tag with elements `t` satisfies this query.
    pub open spec fn holds(&self, t: Seq<TagValue>) -> bool
        decreases self,
    {
        match self {
            Query::Or(p, q) => p.holds(t) || q.holds(t),
            Query::And(p, q) => p.holds(t) && q.holds(t),
            Query::Eq(u) => t == u@,
            Query::Contains(u) => seq_contains(t, u@),
            Query::EndsIn(u) => seq_ends_in(t, u@),
            Query::BeginsWith(u) => seq_begins_with(t, u@),
        }
    }

    pub fn eq_c(t: Tag) -> (r: Self)
        ensures
            r == Query::Eq(t),
    {
        Query::Eq(t)
    }

    pub fn contains_c(t: Tag) -> (r: Self)
        ensures
            r == Query::Contains(t),
    {
        Query::Contains(t)
    }

    pub fn ends_in_c(t: Tag) -> (r: Self)
        ensures
            r == Query::EndsIn(t),
    {
        Query::EndsIn(t)
    }

    pub fn begins_with_c(t: Tag) -> (r: Self)
        ensures
            r == Query::BeginsWith(t),
    {
        Query::BeginsWith(t)
    }

    pub fn or_c(q: Query, p: Query) -> (r: Self)
        ensures
            r == Query::Or(Box::new(q), Box::new(p)),
    {
        Query::Or(Box::new(q), Box::new(p))
    }

    pub fn and_c(q: Query, p: Query) -> (r: Self)
        ensures
            r == Query::And(Box::new(q), Box::new(p)),
    {
        Query::And(Box::new(q), Box::new(p))
    }
}

} // verus!
