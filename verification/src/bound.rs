//! Bounds of a range read.

use vstd::prelude::*;
use crate::keys::{
    key_less, law_key_less_asymmetric, law_key_less_irreflexive, law_key_less_transitive,
    order_keys, KeyOrder,
};

verus! {

/// Upper or lower bound for a range read.
#[derive(Clone, Copy, Debug)]
pub struct Bound<'a> {
    /// Key.
    pub key: &'a [u8],
    /// Whether the bound includes entries with key equal to `self.key`.
    ///
    /// If false, only entries with strictly greater keys (for a lower bound) or strictly smaller
    /// keys (for an upper bound) will be returned.
    ///
    /// If true, equal keys will also be returned.
    pub allow_equal: bool,
}

/// A bound as a mathematical value.
pub struct BoundView {
    pub key: Seq<u8>,
    pub allow_equal: bool,
}

impl<'a> View for Bound<'a> {
    type V = BoundView;

    open spec fn view(&self) -> BoundView {
        BoundView { key: self.key@, allow_equal: self.allow_equal }
    }
}

/// The view of an optional bound.
pub open spec fn bound_view(bound: Option<Bound<'_>>) -> Option<BoundView> {
    match bound {
        None => None,
        Some(b) => Some(b@),
    }
}

/// `key` is not cut off by the upper bound.
pub open spec fn within_upper(bound: Option<BoundView>, key: Seq<u8>) -> bool {
    match bound {
        None => true,
        Some(b) => key_less(key, b.key) || (b.allow_equal && key == b.key),
    }
}

/// `key` is not cut off by the lower bound.
pub open spec fn within_lower(bound: Option<BoundView>, key: Seq<u8>) -> bool {
    match bound {
        None => true,
        Some(b) => key_less(b.key, key) || (b.allow_equal && key == b.key),
    }
}

/// A key before one that an upper bound admits is admitted too.
pub proof fn law_within_upper_downward(bound: Option<BoundView>, smaller: Seq<u8>, key: Seq<u8>)
    requires
        key_less(smaller, key),
        within_upper(bound, key),
    ensures
        within_upper(bound, smaller),
{
    if let Some(b) = bound {
        if key != b.key {
            law_key_less_transitive(smaller, key, b.key);
        }
    }
}

/// A key after one that a lower bound admits is admitted too.
pub proof fn law_within_lower_upward(bound: Option<BoundView>, key: Seq<u8>, greater: Seq<u8>)
    requires
        key_less(key, greater),
        within_lower(bound, key),
    ensures
        within_lower(bound, greater),
{
    if let Some(b) = bound {
        if key != b.key {
            law_key_less_transitive(b.key, key, greater);
        }
    }
}

/// Whether `key` lies past the upper bound.
pub(crate) fn is_past_upper(bound: &Option<Bound<'_>>, key: &[u8]) -> (past: bool)
    ensures
        past == !within_upper(bound_view(*bound), key@),
        past <==> (*bound matches Some(b) && (key_less(b.key@, key@) || (key@ == b.key@
            && !b.allow_equal))),
{
    match bound {
        None => false,
        Some(upper_bound) => match order_keys(key, upper_bound.key) {
            KeyOrder::Equal => !upper_bound.allow_equal,
            KeyOrder::Less => false,
            KeyOrder::Greater => true,
        },
    }
}

/// An upper bound admits the keys before its own, cuts off the keys after it, and admits its own key
/// exactly where it allows equal keys. Without a bound all keys are admitted.
pub proof fn law_upper_bound_cuts(bound: BoundView, key: Seq<u8>)
    ensures
        key_less(key, bound.key) ==> within_upper(Some(bound), key),
        key_less(bound.key, key) ==> !within_upper(Some(bound), key),
        within_upper(Some(bound), bound.key) <==> bound.allow_equal,
        within_upper(None, key),
{
    law_key_less_irreflexive(bound.key);
    if key_less(bound.key, key) {
        law_key_less_asymmetric(bound.key, key);
    }
}

/// A lower bound admits the keys after its own, cuts off the keys before it, and admits its own key
/// exactly where it allows equal keys. Without a bound all keys are admitted.
pub proof fn law_lower_bound_cuts(bound: BoundView, key: Seq<u8>)
    ensures
        key_less(bound.key, key) ==> within_lower(Some(bound), key),
        key_less(key, bound.key) ==> !within_lower(Some(bound), key),
        within_lower(Some(bound), bound.key) <==> bound.allow_equal,
        within_lower(None, key),
{
    law_key_less_irreflexive(bound.key);
    if key_less(key, bound.key) {
        law_key_less_asymmetric(key, bound.key);
    }
}

/// A bound stands for its key and for whether it allows equal keys; no bound stands for none.
pub proof fn law_bound_stands_for_its_key(bound: Bound<'_>)
    ensures
        bound@.key == bound.key@,
        bound@.allow_equal == bound.allow_equal,
        bound_view(Some(bound)) == Some(bound@),
        bound_view(None) is None,
{
}

} // verus!
