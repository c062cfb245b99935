//! What holds of deltas for all configurations.

use vstd::prelude::*;
use crate::delta::{
    all_before, changed_members, diff_fails, member_change, member_fails, patched_value,
    spec_diff, spec_patch,
};
use crate::fingerprint::{lemma_same_shape_same_fingerprint, same_shape, spec_fingerprint};
use crate::store::{
    add_outcome, base_index, has_base, is_latest_delta, latest_delta, with_base, with_delta,
    DeltaRow, Rows,
};
use crate::keys::{key_lt, lemma_key_lt_irreflexive};
use crate::value::{
    has_key, key_index, keys_increasing, lemma_absent_between, lemma_insert_keeps_others,
    lemma_key_index_unique, lookup, Tree,
};

verus! {

/// The tree that stands for a delta that may be absent: null where it is.
pub open spec fn delta_or_null(delta: Option<Tree>) -> Tree {
    match delta {
        Some(tree) => tree,
        None => Tree::Null,
    }
}

/// The changed members of `a` are in order, carry names of `a` only, and
/// bind the name of each of the first `n` members of `a` to what that member
/// contributes.
pub proof fn lemma_changed_members(
    a: Seq<(Seq<char>, Tree)>,
    b: Seq<(Seq<char>, Tree)>,
    n: nat,
)
    requires
        keys_increasing(a),
        n <= a.len(),
    ensures
        keys_increasing(changed_members(a, b, n)),
        forall|k: int|
            n <= k < a.len() ==> all_before(changed_members(a, b, n), (#[trigger] a[k]).0),
        forall|i: int|
            0 <= i < n ==> lookup(changed_members(a, b, n), (#[trigger] a[i]).0) == member_change(
                a[i].1,
                lookup(b, a[i].0),
            ),
        forall|j: int|
            0 <= j < changed_members(a, b, n).len() ==> has_key(
                a,
                (#[trigger] changed_members(a, b, n)[j]).0,
            ),
    decreases n,
{
    let c = changed_members(a, b, n);
    if n > 0 {
        let c0 = changed_members(a, b, (n - 1) as nat);
        let key = a[n - 1].0;
        lemma_changed_members(a, b, (n - 1) as nat);
        assert(all_before(c0, key));
        lemma_absent_between(c0, c0.len() as int, key);
        lemma_key_lt_irreflexive(key);
        match member_change(a[n - 1].1, lookup(b, key)) {
            Some(change) => {
                assert(c =~= c0.insert(c0.len() as int, (key, change)));
                lemma_insert_keeps_others(c0, c0.len() as int, (key, change));
                assert forall|k: int| n <= k < a.len() implies all_before(
                    c,
                    (#[trigger] a[k]).0,
                ) by {
                    assert(all_before(c0, a[k].0));
                    assert(key_lt(a[n - 1].0, a[k].0));
                }
                assert forall|i: int| 0 <= i < n implies lookup(c, (#[trigger] a[i]).0)
                    == member_change(a[i].1, lookup(b, a[i].0)) by {
                    if i < n - 1 {
                        assert(key_lt(a[i].0, a[n - 1].0));
                    }
                }
                assert forall|j: int| 0 <= j < c.len() implies has_key(a, (#[trigger] c[j]).0) by {
                    if j < c0.len() {
                        assert(c[j] == c0[j]);
                    } else {
                        assert(a[n - 1].0 == c[j].0);
                    }
                }
            },
            None => {
                assert(c == c0);
            },
        }
    }
}

/// A configuration does not differ from itself: the comparison is accepted
/// and yields no delta.
pub proof fn lemma_diff_of_self(a: Tree)
    requires
        a.wf(),
    ensures
        !diff_fails(a, a),
        spec_diff(a, a) is None,
    decreases a,
{
    if let Tree::Object(members) = a {
        assert forall|i: int| 0 <= i < members.len() implies !member_fails(
            #[trigger] members[i],
            members,
        ) by {
            lemma_key_index_unique(members, i);
            lemma_diff_of_self(members[i].1);
        }
        lemma_unchanged_members(members, members.len());
    }
}

/// Compared with themselves, the first `n` members of an object contribute
/// nothing to a delta.
proof fn lemma_unchanged_members(members: Seq<(Seq<char>, Tree)>, n: nat)
    requires
        Tree::Object(members).wf(),
        n <= members.len(),
    ensures
        changed_members(members, members, n).len() == 0,
    decreases members, n,
{
    if n > 0 {
        lemma_unchanged_members(members, (n - 1) as nat);
        lemma_key_index_unique(members, n - 1);
        lemma_diff_of_self(members[n - 1].1);
        let value = members[n - 1].1;
        assert(lookup(members, members[n - 1].0) == Some(value));
        assert(spec_diff(value, value) is None);
        assert(member_change(value, Some(value)) is None);
        assert(changed_members(members, members, (n - 1) as nat).len() == 0);
    }
}

/// Configurations of one layout are accepted for comparison: their
/// fingerprints agree at every object, and no member is missing.
pub proof fn lemma_same_shape_accepted(a: Tree, b: Tree)
    requires
        a.wf(),
        b.wf(),
        same_shape(a, b),
    ensures
        !diff_fails(a, b),
    decreases a,
{
    lemma_same_shape_same_fingerprint(a, b);
    if let Tree::Object(x) = a {
        let y = b->Object_0;
        assert forall|i: int| 0 <= i < x.len() implies !member_fails(#[trigger] x[i], y) by {
            assert(x[i].0 == y[i].0 && same_shape(x[i].1, y[i].1));
            assert(x[i].1.wf() && y[i].1.wf());
            lemma_key_index_unique(y, i);
            lemma_same_shape_accepted(x[i].1, y[i].1);
        }
    }
}

/// `b` holds null in place of a scalar or an array only where `a` holds null.
pub open spec fn no_fresh_null(a: Tree, b: Tree) -> bool
    decreases a,
{
    match (a, b) {
        (Tree::Object(x), Tree::Object(y)) => forall|i: int|
            0 <= i < x.len() && i < y.len() ==> no_fresh_null((#[trigger] x[i]).1, y[i].1),
        (_, Tree::Null) => a is Null,
        _ => true,
    }
}

/// Applying to `a` its delta to `b` gives `b` back, where the two have the
/// same layout. Null means "no change" in a delta, so a scalar or an array
/// that becomes null is not restored: such pairs are left out.
pub proof fn lemma_round_trip(a: Tree, b: Tree)
    requires
        a.wf(),
        b.wf(),
        a is Object,
        same_shape(a, b),
        no_fresh_null(a, b),
    ensures
        !diff_fails(a, b),
        spec_patch(a, delta_or_null(spec_diff(a, b))) == b,
    decreases a, 1nat,
{
    let x = a->Object_0;
    let y = b->Object_0;
    let changed = changed_members(x, y, x.len());
    lemma_same_shape_same_fingerprint(a, b);
    lemma_changed_members(x, y, x.len());
    assert forall|i: int| 0 <= i < x.len() implies !member_fails(#[trigger] x[i], y) by {
        lemma_member_round_trip(a, b, i);
    }
    if changed.len() == 0 {
        assert forall|i: int| 0 <= i < x.len() implies x[i] == y[i] by {
            lemma_member_round_trip(a, b, i);
            assert(!has_key(changed, x[i].0));
        }
        assert(x =~= y);
    } else {
        let patched = spec_patch(a, Tree::Object(changed))->Object_0;
        assert forall|i: int| 0 <= i < x.len() implies patched[i] == y[i] by {
            lemma_member_round_trip(a, b, i);
        }
        assert(patched =~= y);
    }
}

/// The round trip for one member: it is accepted, and patching its value
/// with what it contributes to the delta gives the other value.
proof fn lemma_member_round_trip(a: Tree, b: Tree, i: int)
    requires
        a.wf(),
        b.wf(),
        a is Object,
        same_shape(a, b),
        no_fresh_null(a, b),
        0 <= i < a->Object_0.len(),
    ensures
        a->Object_0[i].0 == b->Object_0[i].0,
        lookup(b->Object_0, a->Object_0[i].0) == Some(b->Object_0[i].1),
        !member_fails(a->Object_0[i], b->Object_0),
        patched_value(
            a->Object_0[i].1,
            member_change(a->Object_0[i].1, Some(b->Object_0[i].1)),
        ) == b->Object_0[i].1,
    decreases a, 0nat,
{
    let x = a->Object_0;
    let y = b->Object_0;
    let v = x[i].1;
    let w = y[i].1;
    assert(x[i].0 == y[i].0 && same_shape(v, w));
    assert(no_fresh_null(v, w));
    assert(v.wf() && w.wf());
    lemma_key_index_unique(y, i);
    if v is Object {
        lemma_round_trip(v, w);
        if spec_diff(v, w) is None {
            assert(v == w);
        }
    }
}

/// Two objects of the same layout between which there is no delta are equal.
pub proof fn lemma_no_delta_means_equal(a: Tree, b: Tree)
    requires
        a.wf(),
        b.wf(),
        a is Object,
        same_shape(a, b),
        spec_diff(a, b) is None,
    ensures
        a == b,
{
    let x = a->Object_0;
    let y = b->Object_0;
    let changed = changed_members(x, y, x.len());
    lemma_changed_members(x, y, x.len());
    assert forall|i: int| 0 <= i < x.len() implies x[i] == y[i] by {
        assert(x[i].0 == y[i].0);
        lemma_key_index_unique(y, i);
        assert(!has_key(changed, x[i].0));
    }
    assert(x =~= y);
}

/// The subtree that `path` leads to: each name of the path is looked up in
/// the object that the names before it led to.
pub open spec fn at_path(tree: Tree, path: Seq<Seq<char>>) -> Option<Tree>
    decreases path.len(),
{
    if path.len() == 0 {
        Some(tree)
    } else {
        match tree {
            Tree::Object(members) => match lookup(members, path[0]) {
                Some(value) => at_path(value, path.drop_first()),
                None => None,
            },
            _ => None,
        }
    }
}

/// What a delta must hold at a place where the base holds `x` and the other
/// configuration `y`: nothing where the two are equal, the delta between
/// them where they are objects, and `y` itself otherwise.
pub open spec fn expected_change(x: Tree, y: Tree) -> Option<Tree> {
    if x == y {
        None
    } else if x is Object {
        spec_diff(x, y)
    } else {
        Some(y)
    }
}

/// The comparison of two configurations of one layout is accepted, and its
/// delta holds the places that differ, and no others: at every path, it
/// holds nothing where the two configurations agree or where the base holds
/// nothing, and where they differ it holds the new scalar or array, or the
/// delta between the two objects there, which is not empty.
pub proof fn lemma_diff_minimal(a: Tree, b: Tree, path: Seq<Seq<char>>)
    requires
        a.wf(),
        b.wf(),
        same_shape(a, b),
        path.len() > 0,
    ensures
        !diff_fails(a, b),
        match (at_path(a, path), at_path(b, path)) {
            (Some(x), Some(y)) => {
                &&& at_path(delta_or_null(spec_diff(a, b)), path) == expected_change(x, y)
                &&& x != y ==> expected_change(x, y) is Some
            },
            (None, None) => at_path(delta_or_null(spec_diff(a, b)), path) is None,
            _ => false,
        },
    decreases path.len(),
{
    lemma_same_shape_accepted(a, b);
    let delta = delta_or_null(spec_diff(a, b));
    let key = path[0];
    let rest = path.drop_first();
    if let Tree::Object(x) = a {
        let y = b->Object_0;
        let changed = changed_members(x, y, x.len());
        lemma_changed_members(x, y, x.len());
        assert(lookup(delta->Object_0, key) == lookup(changed, key) || (changed.len() == 0
            && delta is Null));
        if has_key(x, key) {
            let i = key_index(x, key);
            let v = x[i].1;
            let w = y[i].1;
            assert(x[i].0 == y[i].0 && same_shape(v, w));
            assert(v.wf() && w.wf());
            lemma_key_index_unique(x, i);
            lemma_key_index_unique(y, i);
            assert(lookup(changed, key) == member_change(v, Some(w)));
            lemma_member_change(v, w);
            if spec_diff(a, b) is None {
                assert(!has_key(changed, key));
            }
            if rest.len() > 0 {
                if v is Object {
                    lemma_diff_minimal(v, w, rest);
                }
            }
        } else {
            assert(!has_key(y, key)) by {
                if has_key(y, key) {
                    let j = key_index(y, key);
                    assert(x[j].0 == y[j].0);
                }
            }
            if has_key(changed, key) {
                let j = key_index(changed, key);
                assert(has_key(x, changed[j].0));
            }
        }
    }
}

/// What a member contributes to a delta, where both values have the same
/// layout: nothing where they are equal, their delta where they are objects,
/// the other value otherwise.
pub proof fn lemma_member_change(v: Tree, w: Tree)
    requires
        v.wf(),
        w.wf(),
        same_shape(v, w),
    ensures
        member_change(v, Some(w)) == expected_change(v, w),
        v != w ==> expected_change(v, w) is Some,
{
    if v is Object {
        if v == w {
            lemma_diff_of_self(v);
        } else if spec_diff(v, w) is None {
            lemma_no_delta_means_equal(v, w);
        }
    }
}

/// The store only grows: whatever a submission adds comes after the rows
/// that were there, which stay as they were.
pub proof fn lemma_add_only_appends(rows: Rows, name: Seq<char>, value: Tree)
    requires
        add_outcome(rows, name, value) is Ok,
    ensures
        ({
            let after = add_outcome(rows, name, value)->Ok_0;
            &&& rows.bases.len() <= after.bases.len()
            &&& rows.deltas.len() <= after.deltas.len()
            &&& after.bases.subrange(0, rows.bases.len() as int) == rows.bases
            &&& after.deltas.subrange(0, rows.deltas.len() as int) == rows.deltas
        }),
{
    let after = add_outcome(rows, name, value)->Ok_0;
    assert(after.bases.subrange(0, rows.bases.len() as int) =~= rows.bases);
    assert(after.deltas.subrange(0, rows.deltas.len() as int) =~= rows.deltas);
}

/// A submission that is stored is what its base stands for afterwards: where
/// it became a base, and where it has the layout of the base of its
/// fingerprint and its delta joined the log, the base with its last delta
/// gives the submission back. As in the round trip, a scalar or an array that
/// became null is not restored.
pub proof fn lemma_stored_is_latest(rows: Rows, name: Seq<char>, value: Tree)
    requires
        rows.wf(),
        value.wf(),
        add_outcome(rows, name, value) is Ok,
        add_outcome(rows, name, value)->Ok_0 != rows,
        has_base(rows.bases, spec_fingerprint(value)) ==> {
            let base = rows.bases[base_index(rows.bases, spec_fingerprint(value))].value;
            same_shape(base, value) && no_fresh_null(base, value)
        },
    ensures
        ({
            let after = add_outcome(rows, name, value)->Ok_0;
            &&& has_base(after.bases, spec_fingerprint(value))
            &&& after.latest_of(base_index(after.bases, spec_fingerprint(value))) == value
        }),
{
    let fingerprint = spec_fingerprint(value);
    let after = add_outcome(rows, name, value)->Ok_0;
    let last = rows.deltas.len() as int;
    if has_base(rows.bases, fingerprint) {
        let i = base_index(rows.bases, fingerprint);
        let base = rows.bases[i].value;
        let delta = spec_diff(base, value)->0;
        assert(after == with_delta(rows, fingerprint, delta));
        assert(after.bases[i].fingerprint == fingerprint);
        let j = base_index(after.bases, fingerprint);
        assert(j == i) by {
            if j < i {
                assert(rows.bases[j].fingerprint != rows.bases[i].fingerprint);
            } else if i < j {
                assert(rows.bases[i].fingerprint != rows.bases[j].fingerprint);
            }
        }
        lemma_last_delta_is_latest(after.deltas, fingerprint);
        lemma_round_trip(base, value);
    } else {
        assert(after == with_base(rows, name, value));
        let n = rows.bases.len() as int;
        assert(after.bases[n].fingerprint == fingerprint);
        let j = base_index(after.bases, fingerprint);
        assert(j == n) by {
            if j < n {
                assert(after.bases[j] == rows.bases[j]);
            }
        }
        lemma_last_delta_is_latest(after.deltas, fingerprint);
    }
}

/// Where the last delta of the log is one for `fingerprint`, it is the
/// latest for it.
proof fn lemma_last_delta_is_latest(deltas: Seq<DeltaRow>, fingerprint: u64)
    requires
        deltas.len() > 0,
        deltas.last().fingerprint == fingerprint,
    ensures
        latest_delta(deltas, fingerprint) == deltas.len() - 1,
{
    let last = deltas.len() - 1;
    assert(is_latest_delta(deltas, last, fingerprint));
    let d = latest_delta(deltas, fingerprint);
    if d < last {
        assert(deltas[last].fingerprint == fingerprint);
    }
}

} // verus!
