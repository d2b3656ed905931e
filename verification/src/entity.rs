//! The records that the example repository holds.
use vstd::prelude::*;
use crate::order::Orderable;
use crate::text::{lemma_text_order_antisymmetric, lemma_text_order_reflexive};
use crate::text::{lemma_text_order_total, lemma_text_order_transitive};
use crate::text::{place, text_at_most, Placement};

verus! {

/// An item that can be looked up by name.
pub trait HasName {
    /// The name, as text.
    spec fn name_text(&self) -> Seq<char>;

    fn name(&self) -> (name: &str)
        ensures
            name@ == self.name_text(),
    ;
}

/// A named record with a payload. The derived comparisons go by name and
/// then by value, as [`entity_at_most`] does.
#[derive(Debug, PartialEq, Eq, PartialOrd, Ord)]
pub struct Entity {
    pub name: String,
    pub value: String,
}

impl View for Entity {
    type V = (Seq<char>, Seq<char>);

    /// The name and the value, as text.
    open spec fn view(&self) -> (Seq<char>, Seq<char>) {
        (self.name@, self.value@)
    }
}

/// The order of records: by name, and under one name by value, each in the
/// lexicographic order of text.
pub open spec fn entity_at_most(a: (Seq<char>, Seq<char>), b: (Seq<char>, Seq<char>)) -> bool {
    if a.0 == b.0 {
        text_at_most(a.1, b.1)
    } else {
        text_at_most(a.0, b.0)
    }
}

impl Clone for Entity {
    fn clone(&self) -> (copy: Self)
        ensures
            copy == *self,
    {
        Entity { name: self.name.clone(), value: self.value.clone() }
    }
}

impl HasName for Entity {
    open spec fn name_text(&self) -> Seq<char> {
        self.name@
    }

    fn name(&self) -> (name: &str) {
        self.name.as_str()
    }
}

impl Orderable for Entity {
    /// By name, and under one name by value.
    open spec fn ranks_at_most(&self, other: &Self) -> bool {
        entity_at_most(self@, other@)
    }

    proof fn lemma_ranks_total(a: &Self, b: &Self) {
        lemma_text_order_total(a.name@, b.name@);
        lemma_text_order_total(a.value@, b.value@);
    }

    proof fn lemma_ranks_transitive(a: &Self, b: &Self, c: &Self) {
        if a.name@ == b.name@ && b.name@ == c.name@ {
            lemma_text_order_transitive(a.value@, b.value@, c.value@);
        } else if a.name@ != b.name@ && b.name@ != c.name@ {
            lemma_text_order_transitive(a.name@, b.name@, c.name@);
            if a.name@ == c.name@ {
                lemma_text_order_antisymmetric(a.name@, b.name@);
            }
        }
    }

    fn at_most(&self, other: &Self) -> (yes: bool) {
        match place(self.name.as_str(), other.name.as_str()) {
            Placement::Before => true,
            Placement::After => false,
            Placement::Same => {
                proof {
                    lemma_text_order_reflexive(self.value@);
                }
                match place(self.value.as_str(), other.value.as_str()) {
                    Placement::After => false,
                    _ => true,
                }
            },
        }
    }
}

/// Two records of the same rank hold the same name and the same value.
pub proof fn lemma_same_rank_is_same_record(a: Entity, b: Entity)
    requires
        a.ranks_at_most(&b),
        b.ranks_at_most(&a),
    ensures
        a@ == b@,
{
    if a.name@ == b.name@ {
        lemma_text_order_antisymmetric(a.value@, b.value@);
    } else {
        lemma_text_order_antisymmetric(a.name@, b.name@);
    }
}

} // verus!
