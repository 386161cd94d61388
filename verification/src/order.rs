//! How two records stand to each other under a sort setting.

use std::cmp::Ordering;
use vstd::prelude::*;

use crate::models::api::{Model, ModelView};
use crate::models::pricing::Price;
use crate::models::ui::{SortDirection, SortField};
use crate::text::{
    flip, int_order, lemma_text_order_flip, lemma_text_order_transitive, opposite, str_compare,
    str_to_lowercase, text_order,
};

verus! {

/// The ascending comparison of two records by a field: names without regard
/// to case, creation instants chronologically, prices as exact decimals.
pub open spec fn field_order(a: ModelView, b: ModelView, field: SortField) -> Ordering {
    match field {
        SortField::Name => text_order(str_to_lowercase(a.name), str_to_lowercase(b.name)),
        SortField::Created => int_order(a.created, b.created),
        SortField::PromptPrice => a.pricing.prompt.ordering(b.pricing.prompt),
        SortField::CompletionPrice => a.pricing.completion.ordering(b.pricing.completion),
    }
}

/// The comparison of two records by a field in a direction. Descending
/// reverses the sign of the ascending comparison and leaves ties as ties.
pub open spec fn record_order(
    a: ModelView,
    b: ModelView,
    field: SortField,
    direction: SortDirection,
) -> Ordering {
    match direction {
        SortDirection::Ascending => field_order(a, b, field),
        SortDirection::Descending => opposite(field_order(a, b, field)),
    }
}

/// Compares two records by `field` in `direction`.
pub fn compare(a: &Model, b: &Model, field: SortField, direction: SortDirection) -> (o: Ordering)
    ensures
        o == record_order(a@, b@, field, direction),
{
    let ascending = match field {
        SortField::Name => {
            let left = a.name.as_str().to_lowercase();
            let right = b.name.as_str().to_lowercase();
            str_compare(left.as_str(), right.as_str())
        },
        SortField::Created => {
            if a.created < b.created {
                Ordering::Less
            } else if a.created == b.created {
                Ordering::Equal
            } else {
                Ordering::Greater
            }
        },
        SortField::PromptPrice => a.pricing.prompt.compare(&b.pricing.prompt),
        SortField::CompletionPrice => a.pricing.completion.compare(&b.pricing.completion),
    };
    match direction {
        SortDirection::Ascending => ascending,
        SortDirection::Descending => flip(ascending),
    }
}

/// A rule that arranges records: the canonical storage order, by name with
/// regard to case, or the order of a view, by a field in a direction.
#[derive(Debug, Clone, Copy, PartialEq, Eq, Structural)]
pub enum Arrangement {
    Canonical,
    By(SortField, SortDirection),
}

impl Arrangement {
    /// How `a` stands to `b` under the rule.
    pub open spec fn order(self, a: ModelView, b: ModelView) -> Ordering {
        match self {
            Arrangement::Canonical => text_order(a.name, b.name),
            Arrangement::By(field, direction) => record_order(a, b, field, direction),
        }
    }

    /// `a` may stand before `b`: it is smaller or tied.
    pub open spec fn precedes(self, a: ModelView, b: ModelView) -> bool {
        self.order(a, b) != Ordering::Greater
    }

    /// `a` and `b` have tied keys.
    pub open spec fn tied(self, a: ModelView, b: ModelView) -> bool {
        self.order(a, b) == Ordering::Equal
    }

    /// How `a` stands to `b` under the rule.
    pub fn decide(&self, a: &Model, b: &Model) -> (o: Ordering)
        ensures
            o == self.order(a@, b@),
    {
        match self {
            Arrangement::Canonical => str_compare(a.name.as_str(), b.name.as_str()),
            Arrangement::By(field, direction) => compare(a, b, *field, *direction),
        }
    }

    /// Whether `a` may stand before `b`.
    pub fn may_precede(&self, a: &Model, b: &Model) -> (yes: bool)
        ensures
            yes == self.precedes(a@, b@),
    {
        match self.decide(a, b) {
            Ordering::Greater => false,
            _ => true,
        }
    }

    /// Swapping the two records reverses their order.
    pub proof fn lemma_flip(self, a: ModelView, b: ModelView)
        ensures
            self.order(b, a) == opposite(self.order(a, b)),
    {
        match self {
            Arrangement::Canonical => {
                lemma_text_order_flip(a.name, b.name);
            },
            Arrangement::By(field, direction) => {
                match field {
                    SortField::Name => {
                        lemma_text_order_flip(str_to_lowercase(a.name), str_to_lowercase(b.name));
                    },
                    _ => {},
                }
            },
        }
    }

    /// The ascending order by a field is transitive, and a chain that ends in
    /// a tie is made of ties.
    proof fn lemma_ascending_transitive(field: SortField, a: ModelView, b: ModelView, c: ModelView)
        requires
            field_order(a, b, field) != Ordering::Greater,
            field_order(b, c, field) != Ordering::Greater,
        ensures
            field_order(a, c, field) != Ordering::Greater,
            field_order(a, c, field) == Ordering::Equal ==> field_order(a, b, field)
                == Ordering::Equal && field_order(b, c, field) == Ordering::Equal,
    {
        match field {
            SortField::Name => {
                lemma_text_order_transitive(
                    str_to_lowercase(a.name),
                    str_to_lowercase(b.name),
                    str_to_lowercase(c.name),
                );
            },
            SortField::Created => {},
            SortField::PromptPrice => {
                Price::lemma_chain(a.pricing.prompt, b.pricing.prompt, c.pricing.prompt);
            },
            SortField::CompletionPrice => {
                Price::lemma_chain(
                    a.pricing.completion,
                    b.pricing.completion,
                    c.pricing.completion,
                );
            },
        }
    }

    /// The rule is transitive, and a chain that ends in a tie is made of ties.
    pub proof fn lemma_transitive(self, a: ModelView, b: ModelView, c: ModelView)
        requires
            self.precedes(a, b),
            self.precedes(b, c),
        ensures
            self.precedes(a, c),
            self.tied(a, c) ==> self.tied(a, b) && self.tied(b, c),
    {
        match self {
            Arrangement::Canonical => {
                lemma_text_order_transitive(a.name, b.name, c.name);
            },
            Arrangement::By(field, direction) => {
                match direction {
                    SortDirection::Ascending => {
                        Self::lemma_ascending_transitive(field, a, b, c);
                    },
                    SortDirection::Descending => {
                        let up = Arrangement::By(field, SortDirection::Ascending);
                        up.lemma_flip(a, b);
                        up.lemma_flip(b, c);
                        up.lemma_flip(a, c);
                        Self::lemma_ascending_transitive(field, c, b, a);
                    },
                }
            },
        }
    }

    /// Records that are tied with the same record are tied with each other.
    pub proof fn lemma_tied_is_equivalence(self, a: ModelView, b: ModelView, c: ModelView)
        ensures
            self.tied(a, a),
            self.tied(a, b) ==> self.tied(b, a),
            self.tied(a, b) && self.tied(b, c) ==> self.tied(a, c),
    {
        self.lemma_flip(a, a);
        self.lemma_flip(a, b);
        if self.tied(a, b) && self.tied(b, c) {
            self.lemma_transitive(a, b, c);
            self.lemma_flip(b, c);
            self.lemma_flip(a, c);
            self.lemma_transitive(c, b, a);
        }
    }

    /// A direction does not change which records are tied.
    pub proof fn lemma_ties_ignore_direction(field: SortField, a: ModelView, b: ModelView)
        ensures
            Arrangement::By(field, SortDirection::Ascending).tied(a, b) == Arrangement::By(
                field,
                SortDirection::Descending,
            ).tied(a, b),
    {
    }

    /// Descending puts `a` before `b` exactly where ascending puts `b`
    /// before `a`.
    pub proof fn lemma_descending_is_mirror(field: SortField, a: ModelView, b: ModelView)
        ensures
            Arrangement::By(field, SortDirection::Descending).precedes(a, b) == Arrangement::By(
                field,
                SortDirection::Ascending,
            ).precedes(b, a),
    {
        Arrangement::By(field, SortDirection::Ascending).lemma_flip(a, b);
    }
}

} // verus!
