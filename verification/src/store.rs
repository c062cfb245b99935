//! The version store: the append-only record of base configurations and of
//! the deltas against them.
//!
//! The first configuration of each layout is kept in full, as a base. It gets
//! the next version under its name, and a first delta that changes nothing.
//! Every later configuration of that layout, under whatever name, is kept as
//! its delta against the base, unless it equals the base.
//!
//! A store changes through `&mut` alone, so that the two steps of a
//! submission, the search for the base and the insertion, are never parted by
//! another submission. A base whose fingerprint is stored already is refused:
//! where two writers of one database both find no base for a new layout, the
//! second insertion fails and stores nothing.

use vstd::prelude::*;
use crate::delta::{apply_delta, calculate_delta, diff_fails, spec_diff, spec_patch};
use crate::error::ConfigError;
use crate::fingerprint::{calculate_cfg_hash, spec_fingerprint};
use crate::keys::{compare_keys, KeyOrder};
use crate::value::{ConfigValue, Tree};

verus! {

/// The first configuration seen of some layout.
#[derive(Debug)]
pub struct BaseConfig {
    pub name: String,
    pub version: i64,
    pub value: ConfigValue,
    pub fingerprint: u64,
}

/// An entry of the delta log: what changed against the base of the same
/// fingerprint. Null stands for "nothing".
#[derive(Debug)]
pub struct Delta {
    pub id: i64,
    pub fingerprint: u64,
    pub value: ConfigValue,
}

/// The model of a base configuration.
pub struct BaseRow {
    pub name: Seq<char>,
    pub version: int,
    pub value: Tree,
    pub fingerprint: u64,
}

/// The model of a delta.
pub struct DeltaRow {
    pub id: int,
    pub fingerprint: u64,
    pub value: Tree,
}

/// The model of a store: its two tables, in the order of insertion.
pub struct Rows {
    pub bases: Seq<BaseRow>,
    pub deltas: Seq<DeltaRow>,
}

impl View for BaseConfig {
    type V = BaseRow;

    open spec fn view(&self) -> BaseRow {
        BaseRow {
            name: self.name@,
            version: self.version as int,
            value: self.value@,
            fingerprint: self.fingerprint,
        }
    }
}

impl View for Delta {
    type V = DeltaRow;

    open spec fn view(&self) -> DeltaRow {
        DeltaRow { id: self.id as int, fingerprint: self.fingerprint, value: self.value@ }
    }
}

/// The number of rows among the first `n` bases that carry `name`.
pub open spec fn count_named(bases: Seq<BaseRow>, name: Seq<char>, n: nat) -> nat
    decreases n,
{
    if n == 0 || n > bases.len() {
        0
    } else {
        count_named(bases, name, (n - 1) as nat) + if bases[n - 1].name == name {
            1nat
        } else {
            0nat
        }
    }
}

/// Whether a base with fingerprint `fingerprint` is stored.
pub open spec fn has_base(bases: Seq<BaseRow>, fingerprint: u64) -> bool {
    exists|i: int| 0 <= i < bases.len() && (#[trigger] bases[i]).fingerprint == fingerprint
}

/// The position of the base with fingerprint `fingerprint`, where there is one.
pub open spec fn base_index(bases: Seq<BaseRow>, fingerprint: u64) -> int {
    choose|i: int| 0 <= i < bases.len() && (#[trigger] bases[i]).fingerprint == fingerprint
}

/// Whether the delta at position `d` is the first one for `fingerprint`.
pub open spec fn is_first_delta(deltas: Seq<DeltaRow>, d: int, fingerprint: u64) -> bool {
    &&& 0 <= d < deltas.len()
    &&& deltas[d].fingerprint == fingerprint
    &&& forall|e: int| 0 <= e < d ==> (#[trigger] deltas[e]).fingerprint != fingerprint
}

/// Whether the log holds deltas for `fingerprint`, the first of which
/// changes nothing.
pub open spec fn has_zero_delta(deltas: Seq<DeltaRow>, fingerprint: u64) -> bool {
    exists|d: int| #[trigger] is_first_delta(deltas, d, fingerprint) && deltas[d].value is Null
}

/// Whether `value` can be the value of a delta: null, for "nothing changed",
/// or an object that holds at least one changed member.
pub open spec fn is_delta_value(value: Tree) -> bool {
    value is Null || (value is Object && value->Object_0.len() > 0)
}

/// Whether the base at position `i` is the one asked for by `name` and
/// `version`: it carries the name, and the version, or, where none is given,
/// the highest version under that name.
pub open spec fn answers(
    bases: Seq<BaseRow>,
    i: int,
    name: Seq<char>,
    version: Option<int>,
) -> bool {
    &&& 0 <= i < bases.len()
    &&& bases[i].name == name
    &&& match version {
        Some(v) => bases[i].version == v,
        None => forall|j: int|
            0 <= j < bases.len() && (#[trigger] bases[j]).name == name ==> bases[j].version
                <= bases[i].version,
    }
}

/// Whether some base is the one asked for.
pub open spec fn resolvable(bases: Seq<BaseRow>, name: Seq<char>, version: Option<int>) -> bool {
    exists|i: int| #[trigger] answers(bases, i, name, version)
}

/// The position of the base asked for, where there is one.
pub open spec fn resolve(bases: Seq<BaseRow>, name: Seq<char>, version: Option<int>) -> int {
    choose|i: int| #[trigger] answers(bases, i, name, version)
}

/// Whether the delta at position `d` is the last one for `fingerprint`.
pub open spec fn is_latest_delta(deltas: Seq<DeltaRow>, d: int, fingerprint: u64) -> bool {
    &&& 0 <= d < deltas.len()
    &&& deltas[d].fingerprint == fingerprint
    &&& forall|e: int| d < e < deltas.len() ==> (#[trigger] deltas[e]).fingerprint != fingerprint
}

/// The position of the last delta for `fingerprint`, where there is one.
pub open spec fn latest_delta(deltas: Seq<DeltaRow>, fingerprint: u64) -> int {
    choose|d: int| #[trigger] is_latest_delta(deltas, d, fingerprint)
}

/// A version asked for as an unsigned number, as a number.
pub open spec fn wide_version_view(version: Option<u64>) -> Option<int> {
    match version {
        Some(v) => Some(v as int),
        None => None,
    }
}

/// A version asked for, as a number.
pub open spec fn version_view(version: Option<i64>) -> Option<int> {
    match version {
        Some(v) => Some(v as int),
        None => None,
    }
}

impl Rows {
    /// The configuration that the base at position `i` stands for after its
    /// last delta.
    pub open spec fn latest_of(self, i: int) -> Tree {
        spec_patch(
            self.bases[i].value,
            self.deltas[latest_delta(self.deltas, self.bases[i].fingerprint)].value,
        )
    }

    /// The configuration that the delta at position `d` stands for.
    pub open spec fn merged_at(self, d: int) -> Tree {
        spec_patch(
            self.bases[base_index(self.bases, self.deltas[d].fingerprint)].value,
            self.deltas[d].value,
        )
    }
}

/// Among the first `n` bases no more carry a name than among the first `m`,
/// where `n <= m`.
pub proof fn lemma_count_named_monotonic(bases: Seq<BaseRow>, name: Seq<char>, n: nat, m: nat)
    requires
        n <= m <= bases.len(),
    ensures
        count_named(bases, name, n) <= count_named(bases, name, m),
    decreases m,
{
    if n < m {
        lemma_count_named_monotonic(bases, name, n, (m - 1) as nat);
    }
}

/// Under one name the versions rise with the order of insertion.
pub proof fn lemma_versions_rise(rows: Rows, i: int, j: int)
    requires
        rows.wf(),
        0 <= i < j < rows.bases.len(),
        rows.bases[i].name == rows.bases[j].name,
    ensures
        rows.bases[i].version < rows.bases[j].version,
{
    let name = rows.bases[i].name;
    lemma_count_named_monotonic(rows.bases, name, (i + 1) as nat, j as nat);
}

/// At most one base answers a request.
pub proof fn lemma_answer_unique(rows: Rows, i: int, j: int, name: Seq<char>, version: Option<int>)
    requires
        rows.wf(),
        answers(rows.bases, i, name, version),
        answers(rows.bases, j, name, version),
    ensures
        i == j,
{
    if i < j {
        lemma_versions_rise(rows, i, j);
    } else if j < i {
        lemma_versions_rise(rows, j, i);
    }
}

/// The deltas for `fingerprint` among the first `n` of the log, in order,
/// each with its id.
pub open spec fn deltas_of(deltas: Seq<DeltaRow>, fingerprint: u64, n: nat) -> Seq<(int, Tree)>
    decreases n,
{
    if n == 0 || n > deltas.len() {
        Seq::empty()
    } else {
        let before = deltas_of(deltas, fingerprint, (n - 1) as nat);
        if deltas[n - 1].fingerprint == fingerprint {
            before.push((deltas[n - 1].id, deltas[n - 1].value))
        } else {
            before
        }
    }
}

/// The names that the first `n` bases carry, each once, in the order in
/// which they first occur.
pub open spec fn names_of(bases: Seq<BaseRow>, n: nat) -> Seq<Seq<char>>
    decreases n,
{
    if n == 0 || n > bases.len() {
        Seq::empty()
    } else {
        let before = names_of(bases, (n - 1) as nat);
        if before.contains(bases[n - 1].name) {
            before
        } else {
            before.push(bases[n - 1].name)
        }
    }
}

/// The names of the first `n` bases, each with the highest version that it
/// has among them.
pub open spec fn listing(bases: Seq<BaseRow>, n: nat) -> Seq<(Seq<char>, int)> {
    Seq::new(
        names_of(bases, n).len(),
        |k: int| (names_of(bases, n)[k], count_named(bases, names_of(bases, n)[k], n) - 1),
    )
}

/// No name occurs twice among the names of the first `n` bases.
pub proof fn lemma_names_distinct(bases: Seq<BaseRow>, n: nat)
    requires
        n <= bases.len(),
    ensures
        forall|a: int, b: int|
            0 <= a < b < names_of(bases, n).len() ==> names_of(bases, n)[a] != names_of(
                bases,
                n,
            )[b],
    decreases n,
{
    if n > 0 {
        lemma_names_distinct(bases, (n - 1) as nat);
        let before = names_of(bases, (n - 1) as nat);
        let names = names_of(bases, n);
        let name = bases[n - 1].name;
        assert forall|a: int, b: int| 0 <= a < b < names.len() implies names[a] != names[b] by {
            if b < before.len() {
                assert(names[a] == before[a] && names[b] == before[b]);
            } else {
                assert(names == before.push(name));
                assert(names[a] == before[a]);
                if before[a] == name {
                    assert(before.contains(name));
                }
            }
        }
    }
}

/// How the listing grows with one more base: the name of the base gets the
/// version of the base, in the place that it has, or, where it has none, in a
/// new place after all others.
pub proof fn lemma_listing_step(bases: Seq<BaseRow>, i: int)
    requires
        0 <= i < bases.len(),
        bases[i].version == count_named(bases, bases[i].name, i as nat),
    ensures
        forall|k: int|
            0 <= k < names_of(bases, i as nat).len() && (#[trigger] names_of(bases, i as nat)[k])
                == bases[i].name ==> listing(bases, (i + 1) as nat) == listing(
                bases,
                i as nat,
            ).update(k, (bases[i].name, bases[i].version)),
        !names_of(bases, i as nat).contains(bases[i].name) ==> listing(bases, (i + 1) as nat)
            == listing(bases, i as nat).push((bases[i].name, bases[i].version)),
{
    let names = names_of(bases, i as nat);
    let name = bases[i].name;
    let old_list = listing(bases, i as nat);
    let new_list = listing(bases, (i + 1) as nat);
    lemma_names_distinct(bases, i as nat);
    if names.contains(name) {
        assert(names_of(bases, (i + 1) as nat) == names);
        assert forall|k: int| 0 <= k < names.len() && (#[trigger] names[k]) == name implies new_list
            == old_list.update(k, (name, bases[i].version)) by {
            assert forall|j: int| 0 <= j < names.len() implies new_list[j] == old_list.update(
                k,
                (name, bases[i].version),
            )[j] by {
                if j != k {
                    assert(names[j] != names[k]);
                }
            }
            assert(new_list =~= old_list.update(k, (name, bases[i].version)));
        }
    } else {
        assert(names_of(bases, (i + 1) as nat) == names.push(name));
        assert forall|j: int| 0 <= j < names.len() implies names[j] != name by {
            if names[j] == name {
                assert(names.contains(name));
            }
        }
        assert(new_list =~= old_list.push((name, bases[i].version)));
    }
}

/// The model of a list of deltas with their ids.
pub open spec fn id_values(list: Seq<(i64, ConfigValue)>) -> Seq<(int, Tree)> {
    Seq::new(list.len(), |k: int| (list[k].0 as int, list[k].1@))
}

/// The model of a list of names with their versions.
pub open spec fn name_versions(list: Seq<(String, i64)>) -> Seq<(Seq<char>, int)> {
    Seq::new(list.len(), |k: int| (list[k].0@, list[k].1 as int))
}

/// The rows after a new base, with its first delta, was added under `name`.
pub open spec fn with_base(rows: Rows, name: Seq<char>, value: Tree) -> Rows {
    Rows {
        bases: rows.bases.push(
            BaseRow {
                name,
                version: count_named(rows.bases, name, rows.bases.len()) as int,
                value,
                fingerprint: spec_fingerprint(value),
            },
        ),
        deltas: rows.deltas.push(
            DeltaRow {
                id: rows.deltas.len() as int + 1,
                fingerprint: spec_fingerprint(value),
                value: Tree::Null,
            },
        ),
    }
}

/// The rows after a delta for `fingerprint` was added.
pub open spec fn with_delta(rows: Rows, fingerprint: u64, value: Tree) -> Rows {
    Rows {
        bases: rows.bases,
        deltas: rows.deltas.push(DeltaRow { id: rows.deltas.len() as int + 1, fingerprint, value }),
    }
}

/// Whether the log can take another delta.
pub open spec fn has_room(rows: Rows) -> bool {
    rows.deltas.len() + 1 < i64::MAX
}

/// Whether both tables can take another row.
pub open spec fn has_room_for_base(rows: Rows) -> bool {
    rows.bases.len() + 1 < i64::MAX && has_room(rows)
}

/// What adding `value` as a new base under `name` comes to: the new rows, or
/// the reason for which nothing is added.
pub open spec fn base_outcome(rows: Rows, name: Seq<char>, value: Tree) -> Result<
    Rows,
    ConfigError,
> {
    if !(value is Object) {
        Err(ConfigError::ShapeError)
    } else if has_base(rows.bases, spec_fingerprint(value)) || !has_room_for_base(rows) {
        Err(ConfigError::StorageError)
    } else {
        Ok(with_base(rows, name, value))
    }
}

/// What submitting `value` under `name` comes to: the new rows, or the
/// reason for which nothing is added.
///
/// A value whose fingerprint no base has becomes a base. Any other is
/// compared with the base of its fingerprint, and its delta, where there is
/// one, joins the log.
pub open spec fn add_outcome(rows: Rows, name: Seq<char>, value: Tree) -> Result<
    Rows,
    ConfigError,
> {
    if !(value is Object) {
        Err(ConfigError::ShapeError)
    } else if !has_base(rows.bases, spec_fingerprint(value)) {
        base_outcome(rows, name, value)
    } else {
        let base = rows.bases[base_index(rows.bases, spec_fingerprint(value))];
        if diff_fails(base.value, value) {
            Err(ConfigError::ShapeMismatch)
        } else {
            match spec_diff(base.value, value) {
                None => Ok(rows),
                Some(delta) => if has_room(rows) {
                    Ok(with_delta(rows, spec_fingerprint(value), delta))
                } else {
                    Err(ConfigError::StorageError)
                },
            }
        }
    }
}

/// Rows that come after the first `n` play no part in the count of a name
/// among those.
pub proof fn lemma_count_named_push(bases: Seq<BaseRow>, row: BaseRow, name: Seq<char>, n: nat)
    requires
        n <= bases.len(),
    ensures
        count_named(bases.push(row), name, n) == count_named(bases, name, n),
    decreases n,
{
    if n > 0 {
        lemma_count_named_push(bases, row, name, (n - 1) as nat);
    }
}

/// A new base with its first delta leaves the store as every store must be.
pub proof fn lemma_with_base_wf(rows: Rows, name: Seq<char>, value: Tree)
    requires
        rows.wf(),
        value.wf(),
        base_outcome(rows, name, value) is Ok,
    ensures
        with_base(rows, name, value).wf(),
{
    let after = with_base(rows, name, value);
    let fingerprint = spec_fingerprint(value);
    let n = rows.bases.len() as int;
    let m = rows.deltas.len() as int;
    assert(after.bases[n].fingerprint == fingerprint);
    assert(is_first_delta(after.deltas, m, fingerprint)) by {
        assert forall|e: int| 0 <= e < m implies (#[trigger] after.deltas[e]).fingerprint
            != fingerprint by {
            assert(after.deltas[e] == rows.deltas[e]);
            assert(has_base(rows.bases, rows.deltas[e].fingerprint));
        }
    }
    assert(after.deltas[m].value is Null);
    assert forall|i: int| 0 <= i < after.bases.len() implies {
        &&& (#[trigger] after.bases[i]).value is Object
        &&& after.bases[i].value.wf()
        &&& after.bases[i].fingerprint == spec_fingerprint(after.bases[i].value)
        &&& after.bases[i].version == count_named(after.bases, after.bases[i].name, i as nat)
        &&& has_zero_delta(after.deltas, after.bases[i].fingerprint)
    } by {
        lemma_count_named_push(rows.bases, after.bases[n], after.bases[i].name, i as nat);
        if i < n {
            assert(after.bases[i] == rows.bases[i]);
            lemma_zero_delta_stays(rows.deltas, after.deltas[m], rows.bases[i].fingerprint);
        }
    }
    assert forall|i: int, j: int| 0 <= i < j < after.bases.len() implies (
    #[trigger] after.bases[i]).fingerprint != (#[trigger] after.bases[j]).fingerprint by {
        assert(after.bases[i] == rows.bases[i]);
        if j < n {
            assert(after.bases[j] == rows.bases[j]);
        }
    }
    assert forall|d: int| 0 <= d < after.deltas.len() implies {
        &&& (#[trigger] after.deltas[d]).id == d + 1
        &&& after.deltas[d].value.wf()
        &&& is_delta_value(after.deltas[d].value)
        &&& has_base(after.bases, after.deltas[d].fingerprint)
    } by {
        if d < m {
            assert(after.deltas[d] == rows.deltas[d]);
            let i = base_index(rows.bases, rows.deltas[d].fingerprint);
            assert(after.bases[i] == rows.bases[i]);
        }
    }
}

/// A delta that joins the log at its end leaves the first delta of every
/// fingerprint that has one in its place.
pub proof fn lemma_zero_delta_stays(deltas: Seq<DeltaRow>, row: DeltaRow, fingerprint: u64)
    requires
        has_zero_delta(deltas, fingerprint),
    ensures
        has_zero_delta(deltas.push(row), fingerprint),
{
    let d = choose|d: int| #[trigger]
        is_first_delta(deltas, d, fingerprint) && deltas[d].value is Null;
    let after = deltas.push(row);
    assert(after[d] == deltas[d]);
    assert forall|e: int| 0 <= e < d implies (#[trigger] after[e]).fingerprint != fingerprint by {
        assert(after[e] == deltas[e]);
    }
    assert(is_first_delta(after, d, fingerprint));
}

/// A new delta for a base that is stored leaves the store as every store
/// must be.
pub proof fn lemma_with_delta_wf(rows: Rows, fingerprint: u64, value: Tree)
    requires
        rows.wf(),
        value.wf(),
        is_delta_value(value),
        has_base(rows.bases, fingerprint),
        has_room(rows),
    ensures
        with_delta(rows, fingerprint, value).wf(),
{
    let after = with_delta(rows, fingerprint, value);
    let m = rows.deltas.len() as int;
    assert forall|i: int| 0 <= i < after.bases.len() implies has_zero_delta(
        after.deltas,
        (#[trigger] after.bases[i]).fingerprint,
    ) by {
        lemma_zero_delta_stays(rows.deltas, after.deltas[m], rows.bases[i].fingerprint);
    }
    assert forall|d: int| 0 <= d < after.deltas.len() implies {
        &&& (#[trigger] after.deltas[d]).id == d + 1
        &&& after.deltas[d].value.wf()
        &&& is_delta_value(after.deltas[d].value)
        &&& has_base(after.bases, after.deltas[d].fingerprint)
    } by {
        if d < m {
            assert(after.deltas[d] == rows.deltas[d]);
        }
    }
}

impl Rows {
    /// What holds of every store:
    /// each base is an object and carries its own fingerprint, which no other
    /// base has; its version is the number of bases of the same name that
    /// came before it; the deltas are numbered from one in the order of
    /// insertion; each delta belongs to a base, and is null or an object
    /// with a member; and the first delta of each base is null.
    pub open spec fn wf(self) -> bool {
        &&& self.bases.len() < i64::MAX
        &&& self.deltas.len() < i64::MAX
        &&& forall|i: int|
            0 <= i < self.bases.len() ==> {
                &&& (#[trigger] self.bases[i]).value is Object
                &&& self.bases[i].value.wf()
                &&& self.bases[i].fingerprint == spec_fingerprint(self.bases[i].value)
                &&& self.bases[i].version == count_named(self.bases, self.bases[i].name, i as nat)
                &&& has_zero_delta(self.deltas, self.bases[i].fingerprint)
            }
        &&& forall|i: int, j: int|
            0 <= i < j < self.bases.len() ==> (#[trigger] self.bases[i]).fingerprint != (
            #[trigger] self.bases[j]).fingerprint
        &&& forall|d: int|
            0 <= d < self.deltas.len() ==> {
                &&& (#[trigger] self.deltas[d]).id == d + 1
                &&& self.deltas[d].value.wf()
                &&& is_delta_value(self.deltas[d].value)
                &&& has_base(self.bases, self.deltas[d].fingerprint)
            }
    }
}

/// The version store.
pub struct Store {
    bases: Vec<BaseConfig>,
    deltas: Vec<Delta>,
}

impl View for Store {
    type V = Rows;

    closed spec fn view(&self) -> Rows {
        rows_of(self.bases@, self.deltas@)
    }
}

/// The model of two tables.
pub open spec fn rows_of(bases: Seq<BaseConfig>, deltas: Seq<Delta>) -> Rows {
    Rows {
        bases: Seq::new(bases.len(), |i: int| bases[i]@),
        deltas: Seq::new(deltas.len(), |d: int| deltas[d]@),
    }
}

/// Whether one of the first `n` bases has the fingerprint `fingerprint`.
fn fingerprint_among(bases: &Vec<BaseConfig>, n: usize, fingerprint: u64) -> (found: bool)
    requires
        n <= bases.len(),
    ensures
        found == exists|j: int| 0 <= j < n && (#[trigger] bases@[j]).fingerprint == fingerprint,
{
    let mut j: usize = 0;
    while j < n
        invariant
            j <= n <= bases.len(),
            forall|k: int| 0 <= k < j ==> (#[trigger] bases@[k]).fingerprint != fingerprint,
        decreases n - j,
    {
        if bases[j].fingerprint == fingerprint {
            return true;
        }
        j += 1;
    }
    false
}

/// The number of rows among the first `n` bases that carry `name`.
fn count_among(bases: &Vec<BaseConfig>, n: usize, name: &str) -> (count: usize)
    requires
        n <= bases.len(),
    ensures
        count == count_named(rows_of(bases@, Seq::empty()).bases, name@, n as nat),
        count <= n,
{
    let ghost rows = rows_of(bases@, Seq::empty()).bases;
    let mut count: usize = 0;
    let mut i: usize = 0;
    while i < n
        invariant
            i <= n <= bases.len(),
            rows == rows_of(bases@, Seq::empty()).bases,
            count == count_named(rows, name@, i as nat),
            count <= i,
        decreases n - i,
    {
        if compare_keys(bases[i].name.as_str(), name) == KeyOrder::Same {
            count += 1;
        }
        i += 1;
    }
    count
}

/// Whether the log holds deltas for `fingerprint`, the first of which
/// changes nothing.
fn zero_delta_among(deltas: &Vec<Delta>, fingerprint: u64) -> (found: bool)
    ensures
        found == has_zero_delta(rows_of(Seq::empty(), deltas@).deltas, fingerprint),
{
    let ghost rows = rows_of(Seq::empty(), deltas@).deltas;
    let mut d: usize = 0;
    while d < deltas.len()
        invariant
            d <= deltas.len(),
            rows == rows_of(Seq::empty(), deltas@).deltas,
            forall|e: int| 0 <= e < d ==> (#[trigger] rows[e]).fingerprint != fingerprint,
        decreases deltas.len() - d,
    {
        if deltas[d].fingerprint == fingerprint {
            assert(is_first_delta(rows, d as int, fingerprint));
            let zero = match deltas[d].value {
                ConfigValue::Null => true,
                _ => false,
            };
            proof {
                if !zero {
                    assert forall|e: int| #[trigger]
                        is_first_delta(rows, e, fingerprint) implies !(rows[e].value is Null) by {
                        assert(e == d);
                    }
                }
            }
            return zero;
        }
        d += 1;
    }
    assert forall|e: int| !#[trigger] is_first_delta(rows, e, fingerprint) by {
        if 0 <= e < rows.len() {
            assert(rows[e].fingerprint != fingerprint);
        }
    }
    false
}

/// Whether `value` can be the value of a delta.
fn delta_value(value: &ConfigValue) -> (sound: bool)
    ensures
        sound == is_delta_value(value@),
{
    match value {
        ConfigValue::Null => true,
        ConfigValue::Object(members) => !members.is_empty(),
        _ => false,
    }
}

impl Store {
    /// The store keeps its tables as every store must.
    pub open spec fn wf(&self) -> bool {
        self@.wf()
    }

    /// A store without rows.
    pub fn new() -> (store: Store)
        ensures
            store.wf(),
            store@.bases.len() == 0,
            store@.deltas.len() == 0,
    {
        Store { bases: Vec::new(), deltas: Vec::new() }
    }

    /// The store that holds the given rows, where they are as the rows of
    /// every store must be; a storage error where they are not.
    pub fn restore(bases: Vec<BaseConfig>, deltas: Vec<Delta>) -> (restored: Result<
        Store,
        ConfigError,
    >)
        requires
            forall|i: int| 0 <= i < bases.len() ==> (#[trigger] bases@[i]).value.wf(),
            forall|d: int| 0 <= d < deltas.len() ==> (#[trigger] deltas@[d]).value.wf(),
        ensures
            match restored {
                Ok(store) => store.wf() && store@ == rows_of(bases@, deltas@),
                Err(e) => !rows_of(bases@, deltas@).wf() && e == ConfigError::StorageError,
            },
    {
        let ghost rows = rows_of(bases@, deltas@);
        if bases.len() as u64 >= i64::MAX as u64 || deltas.len() as u64 >= i64::MAX as u64 {
            return Err(ConfigError::StorageError);
        }
        assert(rows.bases =~= rows_of(bases@, Seq::empty()).bases);
        assert(rows.deltas =~= rows_of(Seq::empty(), deltas@).deltas);
        let mut i: usize = 0;
        while i < bases.len()
            invariant
                i <= bases.len() < i64::MAX,
                rows == rows_of(bases@, deltas@),
                rows.bases == rows_of(bases@, Seq::empty()).bases,
                rows.deltas == rows_of(Seq::empty(), deltas@).deltas,
                forall|k: int| 0 <= k < bases.len() ==> (#[trigger] bases@[k]).value.wf(),
                forall|k: int|
                    0 <= k < i ==> {
                        &&& (#[trigger] rows.bases[k]).value is Object
                        &&& rows.bases[k].fingerprint == spec_fingerprint(rows.bases[k].value)
                        &&& rows.bases[k].version == count_named(
                            rows.bases,
                            rows.bases[k].name,
                            k as nat,
                        )
                        &&& has_zero_delta(rows.deltas, rows.bases[k].fingerprint)
                    },
                forall|a: int, b: int|
                    0 <= a < b < i ==> (#[trigger] rows.bases[a]).fingerprint != (
                    #[trigger] rows.bases[b]).fingerprint,
            decreases bases.len() - i,
        {
            let base = &bases[i];
            assert(rows.bases[i as int] == base@);
            let sound = match calculate_cfg_hash(&base.value) {
                Ok(fingerprint) => fingerprint == base.fingerprint,
                Err(_) => false,
            };
            if !sound {
                return Err(ConfigError::StorageError);
            }
            let count = count_among(&bases, i, base.name.as_str());
            if base.version < 0 || base.version as u64 != count as u64 {
                return Err(ConfigError::StorageError);
            }
            if fingerprint_among(&bases, i, base.fingerprint) {
                proof {
                    let j = choose|j: int|
                        0 <= j < i && (#[trigger] bases@[j]).fingerprint == base.fingerprint;
                    assert(rows.bases[j].fingerprint == rows.bases[i as int].fingerprint);
                }
                return Err(ConfigError::StorageError);
            }
            if !zero_delta_among(&deltas, base.fingerprint) {
                return Err(ConfigError::StorageError);
            }
            assert forall|a: int, b: int| 0 <= a < b < i + 1 implies (
            #[trigger] rows.bases[a]).fingerprint != (#[trigger] rows.bases[b]).fingerprint by {
                if b == i {
                    assert(bases@[a].fingerprint != base.fingerprint);
                }
            }
            i += 1;
        }
        let mut d: usize = 0;
        while d < deltas.len()
            invariant
                d <= deltas.len() < i64::MAX,
                rows == rows_of(bases@, deltas@),
                forall|k: int| 0 <= k < deltas.len() ==> (#[trigger] deltas@[k]).value.wf(),
                forall|e: int|
                    0 <= e < d ==> (#[trigger] rows.deltas[e]).id == e + 1 && is_delta_value(
                        rows.deltas[e].value,
                    ) && has_base(rows.bases, rows.deltas[e].fingerprint),
            decreases deltas.len() - d,
        {
            let delta = &deltas[d];
            assert(rows.deltas[d as int] == delta@);
            if delta.id != d as i64 + 1 || !delta_value(&delta.value) {
                return Err(ConfigError::StorageError);
            }
            if !fingerprint_among(&bases, bases.len(), delta.fingerprint) {
                assert forall|j: int| 0 <= j < rows.bases.len() implies (
                #[trigger] rows.bases[j]).fingerprint != delta.fingerprint by {
                    assert(bases@[j].fingerprint != delta.fingerprint);
                }
                return Err(ConfigError::StorageError);
            }
            proof {
                let j = choose|j: int|
                    0 <= j < bases.len() && (#[trigger] bases@[j]).fingerprint == delta.fingerprint;
                assert(rows.bases[j].fingerprint == delta.fingerprint);
            }
            d += 1;
        }
        proof {
            assert forall|k: int| 0 <= k < rows.bases.len() implies (
            #[trigger] rows.bases[k]).value.wf() by {
                assert(bases@[k].value.wf());
            }
            assert forall|e: int| 0 <= e < rows.deltas.len() implies (
            #[trigger] rows.deltas[e]).value.wf() by {
                assert(deltas@[e].value.wf());
            }
        }
        Ok(Store { bases, deltas })
    }

    /// The number of bases.
    pub fn base_count(&self) -> (n: usize)
        ensures
            n == self@.bases.len(),
    {
        self.bases.len()
    }

    /// The base at position `i`, in the order of insertion.
    pub fn base(&self, i: usize) -> (base: &BaseConfig)
        requires
            i < self@.bases.len(),
        ensures
            base@ == self@.bases[i as int],
    {
        &self.bases[i]
    }

    /// The number of deltas.
    pub fn delta_count(&self) -> (n: usize)
        ensures
            n == self@.deltas.len(),
    {
        self.deltas.len()
    }

    /// The delta at position `d`, in the order of insertion.
    pub fn delta(&self, d: usize) -> (delta: &Delta)
        requires
            d < self@.deltas.len(),
        ensures
            delta@ == self@.deltas[d as int],
    {
        &self.deltas[d]
    }

    /// The position of the base asked for.
    fn find_base(&self, name: &str, version: Option<i64>) -> (found: Option<usize>)
        requires
            self.wf(),
        ensures
            match found {
                Some(i) => {
                    &&& resolvable(self@.bases, name@, version_view(version))
                    &&& resolve(self@.bases, name@, version_view(version)) == i
                    &&& answers(self@.bases, i as int, name@, version_view(version))
                },
                None => !resolvable(self@.bases, name@, version_view(version)),
            },
    {
        let mut last: Option<usize> = None;
        let mut i: usize = 0;
        while i < self.bases.len()
            invariant
                i <= self.bases.len(),
                self.wf(),
                version is Some ==> last is None && forall|j: int|
                    0 <= j < i ==> !answers(self@.bases, j, name@, version_view(version)),
                version is None ==> match last {
                    Some(l) => l < i && self@.bases[l as int].name == name@ && forall|j: int|
                        l < j < i ==> (#[trigger] self@.bases[j]).name != name@,
                    None => forall|j: int| 0 <= j < i ==> (#[trigger] self@.bases[j]).name != name@,
                },
            decreases self.bases.len() - i,
        {
            if compare_keys(self.bases[i].name.as_str(), name) == KeyOrder::Same {
                match version {
                    Some(v) => {
                        if self.bases[i].version == v {
                            proof {
                                self.lemma_found(i as int, name@, version_view(version));
                            }
                            return Some(i);
                        }
                    },
                    None => {
                        last = Some(i);
                    },
                }
            }
            i += 1;
        }
        proof {
            match last {
                Some(l) => {
                    assert forall|j: int|
                        0 <= j < self@.bases.len() && (#[trigger] self@.bases[j]).name
                            == name@ implies self@.bases[j].version <= self@.bases[l as int].version by {
                        if j < l {
                            lemma_versions_rise(self@, j, l as int);
                        }
                    }
                    self.lemma_found(l as int, name@, version_view(version));
                },
                None => {
                    assert forall|j: int| !answers(self@.bases, j, name@, version_view(version)) by {
                        if 0 <= j < self@.bases.len() && version is None {
                            assert(self@.bases[j].name != name@);
                        }
                    }
                },
            }
        }
        last
    }

    /// Stores `cfg` as a new base under `cfg_name`, with a first delta that
    /// changes nothing, and returns the version that it got. Nothing is
    /// stored where the root of `cfg` is no object, where a base of the same
    /// fingerprint is stored already, or where a table is full.
    pub fn add_base_config(&mut self, cfg_name: &str, cfg: ConfigValue) -> (added: Result<
        i64,
        ConfigError,
    >)
        requires
            old(self).wf(),
            cfg.wf(),
        ensures
            final(self).wf(),
            match added {
                Ok(version) => {
                    &&& base_outcome(old(self)@, cfg_name@, cfg@) == Ok::<Rows, ConfigError>(
                        final(self)@,
                    )
                    &&& version == count_named(
                        old(self)@.bases,
                        cfg_name@,
                        old(self)@.bases.len(),
                    )
                },
                Err(e) => {
                    &&& base_outcome(old(self)@, cfg_name@, cfg@) == Err::<Rows, ConfigError>(e)
                    &&& final(self)@ == old(self)@
                },
            },
    {
        let fingerprint = match calculate_cfg_hash(&cfg) {
            Ok(h) => h,
            Err(e) => {
                return Err(e);
            },
        };
        if self.find_fingerprint(fingerprint).is_some() {
            return Err(ConfigError::StorageError);
        }
        if self.bases.len() as u64 + 1 >= i64::MAX as u64 || self.deltas.len() as u64 + 1
            >= i64::MAX as u64 {
            return Err(ConfigError::StorageError);
        }
        let version = self.count_versions(cfg_name);
        let id = self.deltas.len() as i64 + 1;
        let name = cfg_name.to_owned();
        proof {
            lemma_with_base_wf(self@, cfg_name@, cfg@);
        }
        self.bases.push(BaseConfig { name, version, value: cfg, fingerprint });
        self.deltas.push(Delta { id, fingerprint, value: ConfigValue::Null });
        proof {
            let expected = with_base(old(self)@, cfg_name@, cfg@);
            assert(self@.bases =~= expected.bases);
            assert(self@.deltas =~= expected.deltas);
        }
        Ok(version)
    }

    /// The number of bases stored under `name`.
    fn count_versions(&self, name: &str) -> (count: i64)
        requires
            self.wf(),
        ensures
            count == count_named(self@.bases, name@, self@.bases.len()),
    {
        let mut count: i64 = 0;
        let mut i: usize = 0;
        while i < self.bases.len()
            invariant
                i <= self.bases.len(),
                self.bases.len() < i64::MAX,
                count == count_named(self@.bases, name@, i as nat),
                count <= i,
            decreases self.bases.len() - i,
        {
            if compare_keys(self.bases[i].name.as_str(), name) == KeyOrder::Same {
                count += 1;
            }
            i += 1;
        }
        count
    }

    /// Submits `cfg` under `cfg_name`.
    ///
    /// Where no base has the fingerprint of `cfg`, it becomes a base as by
    /// `add_base_config`. Otherwise its delta against the base of its
    /// fingerprint joins the log, unless there is none: a configuration that
    /// equals its base is not stored again.
    pub fn add_config(&mut self, cfg_name: &str, cfg: ConfigValue) -> (added: Result<
        (),
        ConfigError,
    >)
        requires
            old(self).wf(),
            cfg.wf(),
        ensures
            final(self).wf(),
            match added {
                Ok(_) => add_outcome(old(self)@, cfg_name@, cfg@) == Ok::<Rows, ConfigError>(
                    final(self)@,
                ),
                Err(e) => {
                    &&& add_outcome(old(self)@, cfg_name@, cfg@) == Err::<Rows, ConfigError>(e)
                    &&& final(self)@ == old(self)@
                },
            },
    {
        let fingerprint = match calculate_cfg_hash(&cfg) {
            Ok(h) => h,
            Err(e) => {
                return Err(e);
            },
        };
        match self.find_fingerprint(fingerprint) {
            Some(i) => {
                let delta = match calculate_delta(&self.bases[i].value, &cfg) {
                    Ok(Some(delta)) => delta,
                    Ok(None) => {
                        return Ok(());
                    },
                    Err(e) => {
                        return Err(e);
                    },
                };
                if self.deltas.len() as u64 + 1 >= i64::MAX as u64 {
                    return Err(ConfigError::StorageError);
                }
                let id = self.deltas.len() as i64 + 1;
                proof {
                    lemma_with_delta_wf(self@, fingerprint, delta@);
                }
                self.deltas.push(Delta { id, fingerprint, value: delta });
                proof {
                    let expected = with_delta(old(self)@, fingerprint, delta@);
                    assert(self@.bases =~= expected.bases);
                    assert(self@.deltas =~= expected.deltas);
                }
                Ok(())
            },
            None => match self.add_base_config(cfg_name, cfg) {
                Ok(_) => Ok(()),
                Err(e) => Err(e),
            },
        }
    }

    /// The names under which bases are stored, each once, in the order in
    /// which they first came, and each with its highest version.
    pub fn get_base_configs(&self) -> (found: Result<Vec<(String, i64)>, ConfigError>)
        requires
            self.wf(),
        ensures
            found matches Ok(list) && name_versions(list@) == listing(
                self@.bases,
                self@.bases.len(),
            ),
    {
        let mut list: Vec<(String, i64)> = Vec::new();
        let mut i: usize = 0;
        while i < self.bases.len()
            invariant
                i <= self.bases.len(),
                self.wf(),
                name_versions(list@) == listing(self@.bases, i as nat),
            decreases self.bases.len() - i,
        {
            let base = &self.bases[i];
            let ghost before = name_versions(list@);
            let ghost names = names_of(self@.bases, i as nat);
            let mut k: usize = 0;
            let mut found = false;
            while k < list.len() && !found
                invariant
                    k <= list.len(),
                    name_versions(list@) == before,
                    found ==> k < list.len() && list@[k as int].0@ == base.name@,
                    !found ==> forall|j: int| 0 <= j < k ==> (#[trigger] list@[j]).0@ != base.name@,
                decreases list.len() - k + if found { 0int } else { 1int },
            {
                if compare_keys(list[k].0.as_str(), base.name.as_str()) == KeyOrder::Same {
                    found = true;
                } else {
                    k += 1;
                }
            }
            proof {
                lemma_listing_step(self@.bases, i as int);
                assert(before.len() == list.len());
                assert(listing(self@.bases, i as nat).len() == names.len());
                assert forall|j: int| 0 <= j < list.len() implies (#[trigger] list@[j]).0@
                    == names[j] by {
                    assert(before[j] == listing(self@.bases, i as nat)[j]);
                    assert(before[j].0 == list@[j].0@);
                }
                if !found {
                    assert(!names.contains(base.name@)) by {
                        if names.contains(base.name@) {
                            let j = choose|j: int| 0 <= j < names.len() && names[j] == base.name@;
                            assert(list@[j].0@ == names[j]);
                        }
                    }
                }
                if found {
                    assert(names[k as int] == base.name@);
                }
            }
            if found {
                list.set(k, (base.name.clone(), base.version));
                assert(name_versions(list@) =~= before.update(
                    k as int,
                    (base.name@, base.version as int),
                ));
            } else {
                list.push((base.name.clone(), base.version));
                assert(name_versions(list@) =~= before.push((base.name@, base.version as int)));
            }
            i += 1;
        }
        Ok(list)
    }

    /// A base that answers a request is the one that the request resolves to.
    proof fn lemma_found(&self, i: int, name: Seq<char>, version: Option<int>)
        requires
            self.wf(),
            answers(self@.bases, i, name, version),
        ensures
            resolvable(self@.bases, name, version),
            resolve(self@.bases, name, version) == i,
    {
        lemma_answer_unique(self@, i, resolve(self@.bases, name, version), name, version);
    }

    /// The base configuration stored under `cfg_name` with version `version`,
    /// or, where no version is given, with the highest version under that name.
    pub fn get_base_config(&self, cfg_name: &str, version: Option<i64>) -> (found: Result<
        ConfigValue,
        ConfigError,
    >)
        requires
            self.wf(),
        ensures
            match found {
                Ok(value) => {
                    &&& resolvable(self@.bases, cfg_name@, version_view(version))
                    &&& value@ == self@.bases[resolve(
                        self@.bases,
                        cfg_name@,
                        version_view(version),
                    )].value
                    &&& value.wf()
                },
                Err(e) => {
                    &&& !resolvable(self@.bases, cfg_name@, version_view(version))
                    &&& e == ConfigError::NotFound
                },
            },
    {
        match self.find_base(cfg_name, version) {
            Some(i) => Ok(self.bases[i].value.clone()),
            None => Err(ConfigError::NotFound),
        }
    }

    /// The position of the base with fingerprint `fingerprint`.
    fn find_fingerprint(&self, fingerprint: u64) -> (found: Option<usize>)
        requires
            self.wf(),
        ensures
            match found {
                Some(i) => has_base(self@.bases, fingerprint) && base_index(self@.bases, fingerprint)
                    == i && i < self@.bases.len(),
                None => !has_base(self@.bases, fingerprint),
            },
    {
        let mut i: usize = 0;
        while i < self.bases.len()
            invariant
                i <= self.bases.len(),
                self.wf(),
                forall|j: int| 0 <= j < i ==> (#[trigger] self@.bases[j]).fingerprint != fingerprint,
            decreases self.bases.len() - i,
        {
            if self.bases[i].fingerprint == fingerprint {
                proof {
                    let j = base_index(self@.bases, fingerprint);
                    assert(self@.bases[i as int].fingerprint == fingerprint);
                    assert(j == i) by {
                        if j < i {
                            assert(self@.bases[j].fingerprint != self@.bases[i as int].fingerprint);
                        } else if i < j {
                            assert(self@.bases[i as int].fingerprint != self@.bases[j].fingerprint);
                        }
                    }
                }
                return Some(i);
            }
            i += 1;
        }
        None
    }

    /// The position of the last delta for `fingerprint`.
    fn find_latest_delta(&self, fingerprint: u64) -> (found: Option<usize>)
        requires
            self.wf(),
        ensures
            match found {
                Some(d) => is_latest_delta(self@.deltas, d as int, fingerprint) && latest_delta(
                    self@.deltas,
                    fingerprint,
                ) == d,
                None => forall|e: int|
                    0 <= e < self@.deltas.len() ==> (#[trigger] self@.deltas[e]).fingerprint
                        != fingerprint,
            },
    {
        let mut d: usize = self.deltas.len();
        while d > 0
            invariant
                d <= self.deltas.len(),
                forall|e: int|
                    d <= e < self@.deltas.len() ==> (#[trigger] self@.deltas[e]).fingerprint
                        != fingerprint,
            decreases d,
        {
            d -= 1;
            if self.deltas[d].fingerprint == fingerprint {
                proof {
                    assert(is_latest_delta(self@.deltas, d as int, fingerprint));
                    let other = latest_delta(self@.deltas, fingerprint);
                    assert(is_latest_delta(self@.deltas, other, fingerprint));
                    if other < d {
                        assert(self@.deltas[d as int].fingerprint != fingerprint);
                    } else if d < other {
                        assert(self@.deltas[other].fingerprint != fingerprint);
                    }
                }
                return Some(d);
            }
        }
        None
    }

    /// The base configuration with fingerprint `cfg_hash`, if one is stored.
    pub fn get_base_config_by_hash(&self, cfg_hash: u64) -> (found: Result<
        Option<ConfigValue>,
        ConfigError,
    >)
        requires
            self.wf(),
        ensures
            found matches Ok(found) && match found {
                Some(value) => {
                    &&& has_base(self@.bases, cfg_hash)
                    &&& value@ == self@.bases[base_index(self@.bases, cfg_hash)].value
                    &&& value.wf()
                },
                None => !has_base(self@.bases, cfg_hash),
            },
    {
        match self.find_fingerprint(cfg_hash) {
            Some(i) => Ok(Some(self.bases[i].value.clone())),
            None => Ok(None),
        }
    }

    /// The configuration that the base asked for stands for after the last
    /// delta against it.
    pub fn get_latest_config(&self, cfg_name: &str, version: Option<i64>) -> (found: Result<
        ConfigValue,
        ConfigError,
    >)
        requires
            self.wf(),
        ensures
            match found {
                Ok(value) => {
                    &&& resolvable(self@.bases, cfg_name@, version_view(version))
                    &&& value@ == self@.latest_of(
                        resolve(self@.bases, cfg_name@, version_view(version)),
                    )
                    &&& value.wf()
                },
                Err(e) => {
                    &&& !resolvable(self@.bases, cfg_name@, version_view(version))
                    &&& e == ConfigError::NotFound
                },
            },
    {
        let i = match self.find_base(cfg_name, version) {
            Some(i) => i,
            None => {
                return Err(ConfigError::NotFound);
            },
        };
        let base = &self.bases[i];
        match self.find_latest_delta(base.fingerprint) {
            Some(d) => Ok(apply_delta(&base.value, &self.deltas[d].value)),
            None => {
                proof {
                    let zero = choose|d: int| #[trigger]
                        is_first_delta(self@.deltas, d, base.fingerprint)
                            && self@.deltas[d].value is Null;
                    assert(self@.deltas[zero].fingerprint == base.fingerprint);
                }
                Ok(base.value.clone())
            },
        }
    }

    /// The configuration that the delta with id `delta_id` stands for.
    pub fn get_delta(&self, delta_id: i64) -> (found: Result<ConfigValue, ConfigError>)
        requires
            self.wf(),
        ensures
            match found {
                Ok(value) => {
                    &&& 1 <= delta_id <= self@.deltas.len()
                    &&& value@ == self@.merged_at(delta_id - 1)
                    &&& value.wf()
                },
                Err(e) => !(1 <= delta_id <= self@.deltas.len()) && e == ConfigError::NotFound,
            },
    {
        if delta_id < 1 || delta_id as u64 > self.deltas.len() as u64 {
            return Err(ConfigError::NotFound);
        }
        let delta = &self.deltas[(delta_id - 1) as usize];
        proof {
            assert(has_base(self@.bases, self@.deltas[delta_id - 1].fingerprint));
        }
        match self.find_fingerprint(delta.fingerprint) {
            Some(i) => Ok(apply_delta(&self.bases[i].value, &delta.value)),
            None => Err(ConfigError::NotFound),
        }
    }

    /// Every delta against the base asked for, with its id, in the order of
    /// the ids.
    pub fn get_all_deltas(&self, cfg_name: &str, version: Option<u64>) -> (found: Result<
        Vec<(i64, ConfigValue)>,
        ConfigError,
    >)
        requires
            self.wf(),
        ensures
            match found {
                Ok(list) => {
                    &&& resolvable(self@.bases, cfg_name@, wide_version_view(version))
                    &&& id_values(list@) == deltas_of(
                        self@.deltas,
                        self@.bases[resolve(
                            self@.bases,
                            cfg_name@,
                            wide_version_view(version),
                        )].fingerprint,
                        self@.deltas.len(),
                    )
                    &&& forall|k: int| 0 <= k < list.len() ==> (#[trigger] list@[k]).1.wf()
                },
                Err(e) => {
                    &&& !resolvable(self@.bases, cfg_name@, wide_version_view(version))
                    &&& e == ConfigError::NotFound
                },
            },
    {
        let version = match version {
            Some(v) => {
                if v > i64::MAX as u64 {
                    proof {
                        self.lemma_versions_fit(cfg_name@, v as int);
                    }
                    return Err(ConfigError::NotFound);
                }
                Some(v as i64)
            },
            None => None,
        };
        let fingerprint = match self.find_base(cfg_name, version) {
            Some(i) => self.bases[i].fingerprint,
            None => {
                return Err(ConfigError::NotFound);
            },
        };
        let mut list: Vec<(i64, ConfigValue)> = Vec::new();
        let mut d: usize = 0;
        while d < self.deltas.len()
            invariant
                d <= self.deltas.len(),
                self.wf(),
                id_values(list@) == deltas_of(self@.deltas, fingerprint, d as nat),
                forall|k: int| 0 <= k < list.len() ==> (#[trigger] list@[k]).1.wf(),
            decreases self.deltas.len() - d,
        {
            if self.deltas[d].fingerprint == fingerprint {
                let ghost before = id_values(list@);
                list.push((self.deltas[d].id, self.deltas[d].value.clone()));
                assert(id_values(list@) =~= before.push(
                    (self@.deltas[d as int].id, self@.deltas[d as int].value),
                ));
            }
            d += 1;
        }
        Ok(list)
    }

    /// No base has a version below zero.
    pub proof fn lemma_versions_start_at_zero(&self, name: Seq<char>, version: int)
        requires
            self.wf(),
            resolvable(self@.bases, name, Some(version)),
        ensures
            version >= 0,
    {
        let i = resolve(self@.bases, name, Some(version));
        assert(answers(self@.bases, i, name, Some(version)));
    }

    /// No base has a version beyond what a signed 64-bit number holds.
    proof fn lemma_versions_fit(&self, name: Seq<char>, version: int)
        requires
            self.wf(),
            version > i64::MAX,
        ensures
            !resolvable(self@.bases, name, Some(version)),
    {
        assert forall|i: int| !answers(self@.bases, i, name, Some(version)) by {
            if 0 <= i < self@.bases.len() {
                assert(self@.bases[i].version == self.bases@[i].version as int);
            }
        }
    }

    /// The fingerprint of the base configuration asked for.
    pub fn get_base_config_hash(&self, cfg_name: &str, version: Option<i64>) -> (found: Result<
        u64,
        ConfigError,
    >)
        requires
            self.wf(),
        ensures
            match found {
                Ok(fingerprint) => {
                    &&& resolvable(self@.bases, cfg_name@, version_view(version))
                    &&& fingerprint == self@.bases[resolve(
                        self@.bases,
                        cfg_name@,
                        version_view(version),
                    )].fingerprint
                },
                Err(e) => {
                    &&& !resolvable(self@.bases, cfg_name@, version_view(version))
                    &&& e == ConfigError::NotFound
                },
            },
    {
        match self.find_base(cfg_name, version) {
            Some(i) => Ok(self.bases[i].fingerprint),
            None => Err(ConfigError::NotFound),
        }
    }
}

} // verus!
