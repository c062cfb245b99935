//! Deltas: what has to change in one configuration to make it another of the
//! same layout, and how a delta is applied.

use vstd::prelude::*;
use crate::error::ConfigError;
use crate::fingerprint::{calculate_cfg_hash, spec_fingerprint};
use crate::keys::{key_lt, lemma_key_lt_transitive};
use crate::value::{ConfigValue, Object, Tree, keys_increasing, lookup, has_key, key_index};

verus! {

/// The fingerprint of a tree whose root is an object, and zero for any other.
pub open spec fn digest_or_zero(tree: Tree) -> u64 {
    if tree is Object {
        spec_fingerprint(tree)
    } else {
        0
    }
}

/// Whether the comparison of `base` with `other` is refused: their
/// fingerprints differ, or a member of `base` is refused.
pub open spec fn diff_fails(base: Tree, other: Tree) -> bool
    decreases base, 1nat,
{
    ||| digest_or_zero(base) != digest_or_zero(other)
    ||| base is Object && other is Object && exists|i: int|
        0 <= i < base->Object_0.len() && member_fails(
            #[trigger] base->Object_0[i],
            other->Object_0,
        )
}

/// Whether a member of the base is refused: the other object has no member
/// of that name, or both values are objects whose comparison is refused.
pub open spec fn member_fails(member: (Seq<char>, Tree), others: Seq<(Seq<char>, Tree)>) -> bool
    decreases member.1, 2nat,
{
    match lookup(others, member.0) {
        None => true,
        Some(value) => member.1 is Object && value is Object && diff_fails(member.1, value),
    }
}

/// The delta from `base` to `other`: `None` where no member of `base`
/// changed, else an object that holds the changed members of `base` only.
/// Only objects are compared: of two roots that are not both objects there
/// is no delta. Members that `other` has and `base` lacks play no part.
pub open spec fn spec_diff(base: Tree, other: Tree) -> Option<Tree>
    decreases base, 0nat,
{
    match (base, other) {
        (Tree::Object(members), Tree::Object(others)) => {
            let changed = changed_members(members, others, members.len());
            if changed.len() == 0 {
                None
            } else {
                Some(Tree::Object(changed))
            }
        },
        _ => None,
    }
}

/// What the first `n` members of the base contribute to the delta, in order.
pub open spec fn changed_members(
    members: Seq<(Seq<char>, Tree)>,
    others: Seq<(Seq<char>, Tree)>,
    n: nat,
) -> Seq<(Seq<char>, Tree)>
    decreases members, n,
{
    if n == 0 || n > members.len() {
        Seq::empty()
    } else {
        let rest = changed_members(members, others, (n - 1) as nat);
        match member_change(members[n - 1].1, lookup(others, members[n - 1].0)) {
            Some(change) => rest.push((members[n - 1].0, change)),
            None => rest,
        }
    }
}

/// What a member of the base with value `value` contributes to the delta,
/// where the other object binds its name to `found`. Two objects contribute
/// their own delta; where that is empty, or one of the two is no object, the
/// other value stands in full if it differs.
pub open spec fn member_change(value: Tree, found: Option<Tree>) -> Option<Tree>
    decreases value, 1nat,
{
    match found {
        None => None,
        Some(other) => {
            let nested = if value is Object && other is Object {
                spec_diff(value, other)
            } else {
                None
            };
            if nested is Some {
                nested
            } else if other != value {
                Some(other)
            } else {
                None
            }
        },
    }
}

/// The result of applying `delta` to `base`. An object takes from an object
/// the members that it has itself; null changes nothing; anything else
/// replaces the base.
pub open spec fn spec_patch(base: Tree, delta: Tree) -> Tree
    decreases base, 0nat,
{
    match (base, delta) {
        (Tree::Object(members), Tree::Object(changes)) => Tree::Object(
            Seq::new(
                members.len(),
                |i: int|
                    if 0 <= i < members.len() {
                        (members[i].0, patched_value(members[i].1, lookup(changes, members[i].0)))
                    } else {
                        (Seq::empty(), Tree::Null)
                    },
            ),
        ),
        (_, Tree::Null) => base,
        (_, _) => delta,
    }
}

/// A member's value after patching, where the delta binds its name to `change`.
pub open spec fn patched_value(value: Tree, change: Option<Tree>) -> Tree
    decreases value, 1nat,
{
    match change {
        Some(delta) => spec_patch(value, delta),
        None => value,
    }
}

/// The model of a delta that may be absent.
pub open spec fn delta_view(delta: Option<ConfigValue>) -> Option<Tree> {
    match delta {
        Some(value) => Some(value@),
        None => None,
    }
}

/// In a well-formed object, the value that a name is bound to is well formed.
pub proof fn lemma_lookup_wf(members: Seq<(Seq<char>, Tree)>, key: Seq<char>)
    requires
        Tree::Object(members).wf(),
    ensures
        lookup(members, key) matches Some(value) ==> value.wf(),
{
    if has_key(members, key) {
        let i = key_index(members, key);
        assert(members[i].1.wf());
    }
}

/// Every name in `members` comes before `key`.
pub open spec fn all_before(members: Seq<(Seq<char>, Tree)>, key: Seq<char>) -> bool {
    forall|j: int| 0 <= j < members.len() ==> key_lt((#[trigger] members[j]).0, key)
}

/// The delta from `base` to `other`.
///
/// The comparison is refused with `ShapeMismatch` where the fingerprints of
/// the two differ, where `other` lacks a member of `base`, or where the
/// comparison of two members that are both objects is refused. A root that
/// is no object counts as having the fingerprint zero.
pub fn calculate_delta(base: &ConfigValue, other: &ConfigValue) -> (delta: Result<
    Option<ConfigValue>,
    ConfigError,
>)
    requires
        base.wf(),
        other.wf(),
    ensures
        match delta {
            Ok(found) => {
                &&& !diff_fails(base@, other@)
                &&& delta_view(found) == spec_diff(base@, other@)
                &&& found matches Some(value) ==> value.wf()
            },
            Err(e) => diff_fails(base@, other@) && e == ConfigError::ShapeMismatch,
        },
    decreases base@, 0nat,
{
    let base_digest = match calculate_cfg_hash(base) {
        Ok(h) => h,
        Err(_) => 0,
    };
    let other_digest = match calculate_cfg_hash(other) {
        Ok(h) => h,
        Err(_) => 0,
    };
    if base_digest != other_digest {
        return Err(ConfigError::ShapeMismatch);
    }
    match (base, other) {
        (ConfigValue::Object(members), ConfigValue::Object(others)) => {
            let mut changed = Object::new();
            let mut i: usize = 0;
            while i < members.len()
                invariant
                    i <= members@.len(),
                    members.wf(),
                    others.wf(),
                    changed.wf(),
                    base@ == Tree::Object(members@),
                    other@ == Tree::Object(others@),
                    changed@ == changed_members(members@, others@, i as nat),
                    forall|k: int| 0 <= k < i ==> !member_fails(#[trigger] members@[k], others@),
                    i < members@.len() ==> all_before(changed@, members@[i as int].0),
                decreases members@.len() - i,
            {
                let key = members.key(i);
                let value = members.value(i);
                proof {
                    lemma_lookup_wf(others@, key@);
                    assert(members@[i as int].1.wf());
                    assert(decreases_to!(members@ => members@[i as int]));
                }
                let change = match others.get(key.as_str()) {
                    Some(found) => match member_delta(value, found) {
                        Ok(change) => change,
                        Err(e) => {
                            assert(member_fails(members@[i as int], others@));
                            return Err(e);
                        },
                    },
                    None => {
                        assert(member_fails(members@[i as int], others@));
                        return Err(ConfigError::ShapeMismatch);
                    },
                };
                assert(!member_fails(members@[i as int], others@));
                if let Some(change) = change {
                    changed.append(key.clone(), change);
                }
                proof {
                    if i + 1 < members@.len() {
                        let next = members@[i + 1].0;
                        assert(key_lt(key@, next));
                        assert forall|j: int| 0 <= j < changed@.len() implies key_lt(
                            (#[trigger] changed@[j]).0,
                            next,
                        ) by {
                            if changed@[j].0 != key@ {
                                lemma_key_lt_transitive(changed@[j].0, key@, next);
                            }
                        }
                    }
                }
                i += 1;
            }
            if changed.is_empty() {
                Ok(None)
            } else {
                Ok(Some(ConfigValue::Object(changed)))
            }
        },
        _ => Ok(None),
    }
}

/// What a member of the base with value `value` contributes to the delta,
/// where the other object binds its name to `found`.
fn member_delta(value: &ConfigValue, found: &ConfigValue) -> (change: Result<
    Option<ConfigValue>,
    ConfigError,
>)
    requires
        value.wf(),
        found.wf(),
    ensures
        match change {
            Ok(change) => {
                &&& !(value@ is Object && found@ is Object && diff_fails(value@, found@))
                &&& delta_view(change) == member_change(value@, Some(found@))
                &&& change matches Some(c) ==> c.wf()
            },
            Err(e) => {
                &&& value@ is Object && found@ is Object && diff_fails(value@, found@)
                &&& e == ConfigError::ShapeMismatch
            },
        },
    decreases value@, 1nat,
{
    let nested = match (value, found) {
        (ConfigValue::Object(_), ConfigValue::Object(_)) => match calculate_delta(value, found) {
            Ok(nested) => nested,
            Err(e) => {
                return Err(e);
            },
        },
        _ => None,
    };
    match nested {
        Some(change) => Ok(Some(change)),
        None => if found.same(value) {
            Ok(None)
        } else {
            Ok(Some(found.clone()))
        },
    }
}

/// Applies `delta` to `base`, leaving both as they are.
pub fn apply_delta(base: &ConfigValue, delta: &ConfigValue) -> (merged: ConfigValue)
    requires
        base.wf(),
        delta.wf(),
    ensures
        merged@ == spec_patch(base@, delta@),
        merged.wf(),
    decreases base@,
{
    match (base, delta) {
        (ConfigValue::Object(members), ConfigValue::Object(changes)) => {
            let mut merged = Object::new();
            let mut i: usize = 0;
            while i < members.len()
                invariant
                    i <= members@.len(),
                    members.wf(),
                    changes.wf(),
                    merged.wf(),
                    base@ == Tree::Object(members@),
                    merged@.len() == i,
                    forall|j: int|
                        0 <= j < i ==> #[trigger] merged@[j] == (
                            members@[j].0,
                            patched_value(members@[j].1, lookup(changes@, members@[j].0)),
                        ),
                decreases members@.len() - i,
            {
                let key = members.key(i);
                let value = members.value(i);
                proof {
                    lemma_lookup_wf(changes@, key@);
                    assert(members@[i as int].1.wf());
                    assert(decreases_to!(members@ => members@[i as int]));
                    assert forall|j: int| 0 <= j < merged@.len() implies key_lt(
                        (#[trigger] merged@[j]).0,
                        key@,
                    ) by {
                        assert(key_lt(members@[j].0, members@[i as int].0));
                    }
                }
                let patched = match changes.get(key.as_str()) {
                    Some(change) => apply_delta(value, change),
                    None => value.clone(),
                };
                merged.append(key.clone(), patched);
                i += 1;
            }
            assert(merged@ =~= spec_patch(base@, delta@)->Object_0);
            ConfigValue::Object(merged)
        },
        (_, ConfigValue::Null) => base.clone(),
        (_, _) => delta.clone(),
    }
}

/// Builds the configuration that `delta` stands for, relative to `base_cfg`.
pub fn build_cfg_from_base_and_delta(base_cfg: ConfigValue, delta: ConfigValue) -> (merged:
    ConfigValue)
    requires
        base_cfg.wf(),
        delta.wf(),
    ensures
        merged@ == spec_patch(base_cfg@, delta@),
        merged.wf(),
{
    apply_delta(&base_cfg, &delta)
}

} // verus!
