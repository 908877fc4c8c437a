//! Arithmetic on fixed-point resource quantities, and the capacity and label
//! checks that scheduling decisions rest on.

use vstd::prelude::*;

use crate::scheduling_ffi::{LabelConstraintModel, LabelSelector, LabelSelectorOperator};
use crate::str_map::{amount_of, LabelMap, ResourceSet};

verus! {

/// Fixed-point units in one unit of a resource.
pub const RESOURCE_UNIT_SCALING: i64 = 10000;

/// `x`, held to the range of `i64`.
pub open spec fn clamp_i64(x: int) -> i64 {
    if x < i64::MIN {
        i64::MIN
    } else if x > i64::MAX {
        i64::MAX
    } else {
        x as i64
    }
}

/// `a - b`, held to the range of `i64`.
pub fn sub_clamped(a: i64, b: i64) -> (r: i64)
    ensures
        r == clamp_i64(a - b),
{
    match a.checked_sub(b) {
        Some(r) => r,
        None => {
            if b > 0 {
                i64::MIN
            } else {
                i64::MAX
            }
        },
    }
}

/// `a + b`, held to the range of `i64`.
pub fn add_clamped(a: i64, b: i64) -> (r: i64)
    ensures
        r == clamp_i64(a + b),
{
    match a.checked_add(b) {
        Some(r) => r,
        None => {
            if b > 0 {
                i64::MAX
            } else {
                i64::MIN
            }
        },
    }
}

/// Every required quantity is covered by what is available; an absent
/// resource counts as zero.
pub open spec fn has_capacity_spec(available: Map<Seq<char>, i64>, required: Map<Seq<char>, i64>) -> bool {
    forall|k: Seq<char>| #[trigger] required.contains_key(k) ==> amount_of(available, k) >= required[k]
}

/// Whether `available` covers every quantity in `required`.
pub fn has_capacity(available: &ResourceSet, required: &ResourceSet) -> (b: bool)
    ensures
        b == has_capacity_spec(available@, required@),
{
    let n = required.len();
    let mut i: usize = 0;
    while i < n
        invariant
            n == required.key_seq().len(),
            i <= n,
            forall|j: int| 0 <= j < i ==> required@.contains_key(#[trigger] required.key_seq()[j])
                && amount_of(available@, required.key_seq()[j]) >= required@[required.key_seq()[j]],
        decreases n - i,
    {
        let name = required.key_at(i);
        let amount = *required.value_at(i);
        let have = available.get_or_zero(name.as_str());
        if have < amount {
            return false;
        }
        i = i + 1;
    }
    proof {
        required.lemma_keys();
        assert forall|k: Seq<char>| #[trigger] required@.contains_key(k) implies amount_of(available@, k)
            >= required@[k] by {
            let j = choose|j: int| 0 <= j < required.key_seq().len() && required.key_seq()[j] == k;
            assert(required@.contains_key(required.key_seq()[j]));
        }
    }
    true
}

/// A node's labels meet one constraint.
pub open spec fn constraint_matches(labels: Map<Seq<char>, Seq<char>>, c: LabelConstraintModel) -> bool {
    match c.op {
        LabelSelectorOperator::Unspecified => true,
        LabelSelectorOperator::In => labels.contains_key(c.key) && c.values.contains(labels[c.key]),
        LabelSelectorOperator::NotIn => !labels.contains_key(c.key) || !c.values.contains(
            labels[c.key],
        ),
    }
}

/// A node's labels meet every constraint of a selector.
pub open spec fn selector_matches(labels: Map<Seq<char>, Seq<char>>, selector: Seq<LabelConstraintModel>) -> bool {
    forall|i: int| 0 <= i < selector.len() ==> constraint_matches(labels, #[trigger] selector[i])
}

/// Whether `value` is one of `values`.
fn contains_value(values: &Vec<String>, value: &String) -> (b: bool)
    ensures
        b == values@.map_values(|v: String| v@).contains(value@),
{
    let ghost vs = values@.map_values(|v: String| v@);
    let mut i: usize = 0;
    while i < values.len()
        invariant
            i <= values@.len(),
            vs == values@.map_values(|v: String| v@),
            forall|j: int| 0 <= j < i ==> vs[j] != value@,
        decreases values@.len() - i,
    {
        if values[i] == *value {
            assert(vs[i as int] == value@);
            return true;
        }
        i = i + 1;
    }
    proof {
        if vs.contains(value@) {
            let j = choose|j: int| 0 <= j < vs.len() && vs[j] == value@;
            assert(vs[j] != value@);
        }
    }
    false
}

/// Whether the labels meet every constraint of the selector.
pub fn matches_label_selector(labels: &LabelMap, selector: &LabelSelector) -> (b: bool)
    ensures
        b == selector_matches(labels@, selector@),
{
    let mut i: usize = 0;
    while i < selector.constraints.len()
        invariant
            i <= selector.constraints@.len(),
            forall|j: int| 0 <= j < i ==> constraint_matches(labels@, #[trigger] selector@[j]),
        decreases selector.constraints@.len() - i,
    {
        let constraint = &selector.constraints[i];
        let node_value = labels.get(constraint.key.as_str());
        let ok = match constraint.op {
            LabelSelectorOperator::Unspecified => true,
            LabelSelectorOperator::In => match node_value {
                Some(value) => contains_value(&constraint.values, value),
                None => false,
            },
            LabelSelectorOperator::NotIn => match node_value {
                Some(value) => !contains_value(&constraint.values, value),
                None => true,
            },
        };
        assert(selector@[i as int] == constraint@);
        if !ok {
            return false;
        }
        i = i + 1;
    }
    true
}

/// A `NotIn` constraint is met exactly where the `In` constraint with the
/// same key and values is not: in particular by every node whose labels
/// lack the key.
pub proof fn law_not_in_is_the_negation_of_in(
    labels: Map<Seq<char>, Seq<char>>,
    key: Seq<char>,
    values: Seq<Seq<char>>,
)
    ensures
        constraint_matches(
            labels,
            LabelConstraintModel { key, op: LabelSelectorOperator::NotIn, values },
        ) == !constraint_matches(
            labels,
            LabelConstraintModel { key, op: LabelSelectorOperator::In, values },
        ),
        !labels.contains_key(key) ==> constraint_matches(
            labels,
            LabelConstraintModel { key, op: LabelSelectorOperator::NotIn, values },
        ),
        !labels.contains_key(key) ==> !constraint_matches(
            labels,
            LabelConstraintModel { key, op: LabelSelectorOperator::In, values },
        ),
{
}

/// A selector made only of `NotIn` constraints whose keys a node's labels
/// lack is met by that node.
pub proof fn law_not_in_selector_admits_unlabelled_nodes(
    labels: Map<Seq<char>, Seq<char>>,
    selector: Seq<LabelConstraintModel>,
)
    requires
        forall|i: int|
            0 <= i < selector.len() ==> (#[trigger] selector[i]).op == LabelSelectorOperator::NotIn
                && !labels.contains_key(selector[i].key),
    ensures
        selector_matches(labels, selector),
{
}

} // verus!
