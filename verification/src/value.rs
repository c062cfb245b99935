//! Configuration trees and their mathematical model.

use vstd::prelude::*;
use vstd::std_specs::cmp::PartialEqSpecImpl;
use crate::keys::{
    compare_keys, key_lt, lemma_key_lt_irreflexive, lemma_key_lt_transitive, KeyOrder,
};

verus! {

/// The mathematical model of a configuration value.
///
/// An object is the sequence of its members, each a name and a value.
pub enum Tree {
    Null,
    Bool(bool),
    Int(int),
    /// A float, by its bits, the two zeros taken as one.
    Real(u64),
    Text(Seq<char>),
    Array(Seq<Tree>),
    Object(Seq<(Seq<char>, Tree)>),
}

/// The names of `members` are in strictly increasing order.
pub open spec fn keys_increasing(members: Seq<(Seq<char>, Tree)>) -> bool {
    forall|i: int, j: int|
        0 <= i < j < members.len() ==> key_lt(#[trigger] members[i].0, #[trigger] members[j].0)
}

impl Tree {
    /// Every object in the tree keeps its members in strictly increasing
    /// order of their names.
    pub open spec fn wf(self) -> bool
        decreases self,
    {
        match self {
            Tree::Array(items) => forall|i: int|
                0 <= i < items.len() ==> (#[trigger] items[i]).wf(),
            Tree::Object(members) => {
                &&& keys_increasing(members)
                &&& forall|i: int| 0 <= i < members.len() ==> (#[trigger] members[i]).1.wf()
            },
            _ => true,
        }
    }
}

/// A configuration value: a scalar, an array, or an object.
#[derive(Debug)]
pub enum ConfigValue {
    Null,
    Bool(bool),
    Int(i128),
    /// A 64-bit float, held as its IEEE-754 bit pattern. Two floats are the
    /// same value where their bits are the same, and where both are zero,
    /// whatever the sign.
    Real(u64),
    Text(String),
    Array(Vec<ConfigValue>),
    Object(Object),
}

/// The members of an object, kept in strictly increasing order of their names.
#[derive(Debug)]
pub struct Object {
    members: Vec<(String, ConfigValue)>,
}

/// The bits of a float, with those of zero in place of those of negative
/// zero: floats that are equal as numbers get the same bits.
pub open spec fn unsigned_zero(bits: u64) -> u64 {
    if bits == 0x8000_0000_0000_0000u64 {
        0
    } else {
        bits
    }
}

/// The bits of a float, with those of zero in place of those of negative zero.
fn without_sign_of_zero(bits: u64) -> (plain: u64)
    ensures
        plain == unsigned_zero(bits),
{
    if bits == 0x8000_0000_0000_0000u64 {
        0
    } else {
        bits
    }
}

impl View for ConfigValue {
    type V = Tree;

    open spec fn view(&self) -> Tree
        decreases self,
    {
        match self {
            ConfigValue::Null => Tree::Null,
            ConfigValue::Bool(b) => Tree::Bool(*b),
            ConfigValue::Int(n) => Tree::Int(*n as int),
            ConfigValue::Real(bits) => Tree::Real(unsigned_zero(*bits)),
            ConfigValue::Text(s) => Tree::Text(s@),
            ConfigValue::Array(items) => Tree::Array(items_view(items@)),
            ConfigValue::Object(object) => Tree::Object(object@),
        }
    }
}

/// The model of a list of values: the model of each, in order.
pub open spec fn items_view(items: Seq<ConfigValue>) -> Seq<Tree>
    decreases items,
{
    Seq::new(
        items.len(),
        |i: int|
            if 0 <= i < items.len() {
                items[i]@
            } else {
                Tree::Null
            },
    )
}

/// The model of a list of members: the name and the model of the value of
/// each, in order.
pub open spec fn members_view(members: Seq<(String, ConfigValue)>) -> Seq<(Seq<char>, Tree)>
    decreases members,
{
    Seq::new(
        members.len(),
        |i: int|
            if 0 <= i < members.len() {
                (members[i].0@, members[i].1@)
            } else {
                (Seq::empty(), Tree::Null)
            },
    )
}

impl View for Object {
    type V = Seq<(Seq<char>, Tree)>;

    closed spec fn view(&self) -> Seq<(Seq<char>, Tree)>
        decreases self,
    {
        members_view(self.members@)
    }
}

/// Whether some member of `members` is named `key`.
pub open spec fn has_key(members: Seq<(Seq<char>, Tree)>, key: Seq<char>) -> bool {
    exists|i: int| 0 <= i < members.len() && (#[trigger] members[i]).0 == key
}

/// The position of a member named `key`, where there is one.
pub open spec fn key_index(members: Seq<(Seq<char>, Tree)>, key: Seq<char>) -> int {
    choose|i: int| 0 <= i < members.len() && (#[trigger] members[i]).0 == key
}

/// The value of the member named `key`, if there is one.
pub open spec fn lookup(members: Seq<(Seq<char>, Tree)>, key: Seq<char>) -> Option<Tree> {
    if has_key(members, key) {
        Some(members[key_index(members, key)].1)
    } else {
        None
    }
}

/// Where names increase strictly, a name is found at one position only.
pub proof fn lemma_key_index_unique(members: Seq<(Seq<char>, Tree)>, i: int)
    requires
        keys_increasing(members),
        0 <= i < members.len(),
    ensures
        has_key(members, members[i].0),
        key_index(members, members[i].0) == i,
        lookup(members, members[i].0) == Some(members[i].1),
{
    let key = members[i].0;
    let j = key_index(members, key);
    lemma_key_lt_irreflexive(key);
    if j < i {
        assert(key_lt(members[j].0, members[i].0));
    } else if i < j {
        assert(key_lt(members[i].0, members[j].0));
    }
}

impl ConfigValue {
    /// Every object in the value keeps its members in order.
    pub open spec fn wf(&self) -> bool {
        self@.wf()
    }
}

impl Object {
    /// The members are in order, and so are those of every object below.
    pub open spec fn wf(&self) -> bool {
        Tree::Object(self@).wf()
    }

    /// An object without members.
    pub fn new() -> (object: Object)
        ensures
            object@ == Seq::<(Seq<char>, Tree)>::empty(),
            object.wf(),
    {
        let object = Object { members: Vec::new() };
        assert(object@ =~= Seq::empty());
        object
    }

    /// The number of members.
    pub fn len(&self) -> (n: usize)
        ensures
            n == self@.len(),
    {
        self.members.len()
    }

    /// Whether the object has no member.
    pub fn is_empty(&self) -> (empty: bool)
        ensures
            empty == (self@.len() == 0),
    {
        self.members.len() == 0
    }

    /// The name of the member at position `i`.
    pub fn key(&self, i: usize) -> (name: &String)
        requires
            i < self@.len(),
        ensures
            name@ == self@[i as int].0,
    {
        &self.members[i].0
    }

    /// The value of the member at position `i`.
    pub fn value(&self, i: usize) -> (value: &ConfigValue)
        requires
            i < self@.len(),
        ensures
            value@ == self@[i as int].1,
    {
        &self.members[i].1
    }

    /// The position at which a member named `key` stands, or, where there is
    /// none, at which it would have to stand.
    fn position(&self, key: &str) -> (at: (usize, bool))
        requires
            self.wf(),
        ensures
            at.0 <= self@.len(),
            forall|j: int| 0 <= j < at.0 ==> key_lt((#[trigger] self@[j]).0, key@),
            at.1 ==> at.0 < self@.len() && self@[at.0 as int].0 == key@,
            !at.1 ==> forall|j: int|
                at.0 <= j < self@.len() ==> key_lt(key@, (#[trigger] self@[j]).0),
    {
        let mut i: usize = 0;
        while i < self.members.len()
            invariant
                i <= self.members.len(),
                self.wf(),
                forall|j: int| 0 <= j < i ==> key_lt((#[trigger] self@[j]).0, key@),
            decreases self.members.len() - i,
        {
            match compare_keys(self.members[i].0.as_str(), key) {
                KeyOrder::Before => {
                    i += 1;
                },
                KeyOrder::Same => {
                    return (i, true);
                },
                KeyOrder::After => {
                    assert forall|j: int| i <= j < self@.len() implies key_lt(
                        key@,
                        (#[trigger] self@[j]).0,
                    ) by {
                        if j > i {
                            lemma_key_lt_transitive(key@, self@[i as int].0, self@[j].0);
                        }
                    }
                    return (i, false);
                },
            }
        }
        (i, false)
    }

    /// The value of the member named `key`, if there is one.
    pub fn get(&self, key: &str) -> (found: Option<&ConfigValue>)
        requires
            self.wf(),
        ensures
            match found {
                Some(value) => lookup(self@, key@) == Some(value@),
                None => lookup(self@, key@) is None,
            },
    {
        let (i, found) = self.position(key);
        if found {
            proof {
                lemma_key_index_unique(self@, i as int);
            }
            Some(&self.members[i].1)
        } else {
            proof {
                lemma_absent_between(self@, i as int, key@);
            }
            None
        }
    }

    /// Adds a member after all others. Its name must come after every name
    /// that the object holds.
    pub fn append(&mut self, key: String, value: ConfigValue)
        requires
            old(self).wf(),
            value.wf(),
            forall|i: int| 0 <= i < old(self)@.len() ==> key_lt((#[trigger] old(self)@[i]).0, key@),
        ensures
            final(self).wf(),
            final(self)@ == old(self)@.push((key@, value@)),
    {
        self.members.push((key, value));
        assert(self@ =~= old(self)@.push((key@, value@)));
    }

    /// Sets the member named `key` to `value`, and returns the value that the
    /// name had before, if it had one. The other members stay as they are.
    pub fn insert(&mut self, key: String, value: ConfigValue) -> (previous: Option<ConfigValue>)
        requires
            old(self).wf(),
            value.wf(),
        ensures
            final(self).wf(),
            match previous {
                Some(p) => lookup(old(self)@, key@) == Some(p@) && final(self)@.len() == old(
                    self,
                )@.len(),
                None => lookup(old(self)@, key@) is None && final(self)@.len() == old(self)@.len()
                    + 1,
            },
            lookup(final(self)@, key@) == Some(value@),
            forall|other: Seq<char>|
                other != key@ ==> lookup(final(self)@, other) == lookup(old(self)@, other),
    {
        let (i, found) = self.position(key.as_str());
        let ghost before = self@;
        let ghost entry = (key@, value@);
        if found {
            let replaced = self.members.remove(i);
            self.members.insert(i, (key, value));
            proof {
                assert(self@ =~= before.update(i as int, entry));
                lemma_key_index_unique(before, i as int);
                lemma_update_keeps_others(before, i as int, entry.1);
            }
            Some(replaced.1)
        } else {
            self.members.insert(i, (key, value));
            proof {
                assert(self@ =~= before.insert(i as int, entry));
                lemma_insert_keeps_others(before, i as int, entry);
            }
            None
        }
    }
}

/// Where two lists of members in order bind every name alike, a member of
/// the first stands no earlier in the second.
proof fn lemma_position_not_earlier(
    a: Seq<(Seq<char>, Tree)>,
    b: Seq<(Seq<char>, Tree)>,
    i: int,
)
    requires
        keys_increasing(a),
        keys_increasing(b),
        forall|key: Seq<char>| lookup(a, key) is Some ==> lookup(b, key) is Some,
        0 <= i < a.len(),
    ensures
        has_key(b, a[i].0),
        i <= key_index(b, a[i].0),
    decreases i,
{
    lemma_key_index_unique(a, i);
    assert(lookup(a, a[i].0) is Some);
    assert(lookup(b, a[i].0) is Some);
    if i > 0 {
        lemma_position_not_earlier(a, b, i - 1);
        lemma_key_index_unique(a, i - 1);
        let before = key_index(b, a[i - 1].0);
        let here = key_index(b, a[i].0);
        assert(key_lt(a[i - 1].0, a[i].0));
        lemma_key_lt_irreflexive(a[i].0);
        if here < before {
            assert(key_lt(b[here].0, b[before].0));
            lemma_key_lt_transitive(a[i].0, a[i - 1].0, a[i].0);
        }
    }
}

/// An object is determined by what it binds its names to: two lists of
/// members in order that bind every name alike are the same list.
pub proof fn lemma_members_determined(a: Seq<(Seq<char>, Tree)>, b: Seq<(Seq<char>, Tree)>)
    requires
        keys_increasing(a),
        keys_increasing(b),
        forall|key: Seq<char>| lookup(a, key) == lookup(b, key),
    ensures
        a == b,
{
    if a.len() > 0 {
        lemma_position_not_earlier(a, b, a.len() - 1);
    }
    if b.len() > 0 {
        lemma_position_not_earlier(b, a, b.len() - 1);
    }
    assert(a.len() == b.len());
    assert forall|i: int| 0 <= i < a.len() implies a[i] == b[i] by {
        lemma_position_not_earlier(a, b, i);
        let j = key_index(b, a[i].0);
        lemma_position_not_earlier(b, a, j);
        lemma_key_index_unique(a, i);
        lemma_key_index_unique(b, j);
        assert(lookup(a, a[i].0) == lookup(b, a[i].0));
    }
    assert(a =~= b);
}

/// A name that falls between two neighbours is not among the members.
pub proof fn lemma_absent_between(members: Seq<(Seq<char>, Tree)>, i: int, key: Seq<char>)
    requires
        0 <= i <= members.len(),
        forall|j: int| 0 <= j < i ==> key_lt((#[trigger] members[j]).0, key),
        forall|j: int| i <= j < members.len() ==> key_lt(key, (#[trigger] members[j]).0),
    ensures
        lookup(members, key) is None,
{
    lemma_key_lt_irreflexive(key);
    if has_key(members, key) {
        let j = key_index(members, key);
        assert(key_lt(members[j].0, key) || key_lt(key, members[j].0));
    }
}

/// Replacing the value of one member changes what that member's name is
/// bound to, and nothing else.
pub proof fn lemma_update_keeps_others(members: Seq<(Seq<char>, Tree)>, i: int, value: Tree)
    requires
        keys_increasing(members),
        0 <= i < members.len(),
    ensures
        keys_increasing(members.update(i, (members[i].0, value))),
        lookup(members.update(i, (members[i].0, value)), members[i].0) == Some(value),
        forall|other: Seq<char>|
            other != members[i].0 ==> lookup(members.update(i, (members[i].0, value)), other)
                == lookup(members, other),
{
    let key = members[i].0;
    let after = members.update(i, (key, value));
    assert forall|a: int, b: int| 0 <= a < b < after.len() implies key_lt(
        #[trigger] after[a].0,
        #[trigger] after[b].0,
    ) by {
        assert(key_lt(members[a].0, members[b].0));
    }
    lemma_key_index_unique(after, i);
    assert forall|other: Seq<char>| other != key implies lookup(after, other) == lookup(
        members,
        other,
    ) by {
        if has_key(members, other) {
            let j = key_index(members, other);
            assert(after[j].0 == other);
            lemma_key_index_unique(members, j);
            lemma_key_index_unique(after, j);
        } else if has_key(after, other) {
            let j = key_index(after, other);
            assert(members[j].0 == other);
        }
    }
}

/// Putting a new member at the place that its name asks for binds that name,
/// and changes nothing else.
pub proof fn lemma_insert_keeps_others(
    members: Seq<(Seq<char>, Tree)>,
    i: int,
    entry: (Seq<char>, Tree),
)
    requires
        keys_increasing(members),
        0 <= i <= members.len(),
        forall|j: int| 0 <= j < i ==> key_lt((#[trigger] members[j]).0, entry.0),
        forall|j: int| i <= j < members.len() ==> key_lt(entry.0, (#[trigger] members[j]).0),
    ensures
        keys_increasing(members.insert(i, entry)),
        lookup(members, entry.0) is None,
        lookup(members.insert(i, entry), entry.0) == Some(entry.1),
        forall|other: Seq<char>|
            other != entry.0 ==> lookup(members.insert(i, entry), other) == lookup(members, other),
{
    let after = members.insert(i, entry);
    lemma_key_lt_irreflexive(entry.0);
    assert forall|a: int, b: int| 0 <= a < b < after.len() implies key_lt(
        #[trigger] after[a].0,
        #[trigger] after[b].0,
    ) by {
        let a0 = if a < i { a } else { a - 1 };
        let b0 = if b < i { b } else { b - 1 };
        if a == i {
            assert(key_lt(entry.0, members[b0].0));
        } else if b == i {
            assert(key_lt(members[a0].0, entry.0));
        } else {
            assert(key_lt(members[a0].0, members[b0].0));
        }
    }
    lemma_absent_between(members, i, entry.0);
    assert(after[i] == entry);
    lemma_key_index_unique(after, i);
    assert forall|other: Seq<char>| other != entry.0 implies lookup(after, other) == lookup(
        members,
        other,
    ) by {
        if has_key(members, other) {
            let j = key_index(members, other);
            let j1 = if j < i { j } else { j + 1 };
            assert(after[j1] == members[j]);
            lemma_key_index_unique(members, j);
            lemma_key_index_unique(after, j1);
        } else if has_key(after, other) {
            let j1 = key_index(after, other);
            let j = if j1 < i { j1 } else { j1 - 1 };
            assert(members[j] == after[j1]);
        }
    }
}

impl Clone for ConfigValue {
    fn clone(&self) -> (copy: Self)
        ensures
            copy@ == self@,
        decreases self,
    {
        match self {
            ConfigValue::Null => ConfigValue::Null,
            ConfigValue::Bool(b) => ConfigValue::Bool(*b),
            ConfigValue::Int(n) => ConfigValue::Int(*n),
            ConfigValue::Real(bits) => ConfigValue::Real(*bits),
            ConfigValue::Text(s) => ConfigValue::Text(s.clone()),
            ConfigValue::Array(items) => ConfigValue::Array(clone_items(items)),
            ConfigValue::Object(object) => ConfigValue::Object(object.clone()),
        }
    }
}

fn clone_items(items: &Vec<ConfigValue>) -> (copies: Vec<ConfigValue>)
    ensures
        items_view(copies@) == items_view(items@),
    decreases items,
{
    let mut copies: Vec<ConfigValue> = Vec::new();
    let mut i: usize = 0;
    while i < items.len()
        invariant
            i <= items.len(),
            copies.len() == i,
            forall|j: int| 0 <= j < i ==> (#[trigger] copies[j])@ == items[j]@,
        decreases items.len() - i,
    {
        copies.push(items[i].clone());
        i += 1;
    }
    assert(items_view(copies@) =~= items_view(items@));
    copies
}

impl Clone for Object {
    fn clone(&self) -> (copy: Self)
        ensures
            copy@ == self@,
        decreases self,
    {
        let mut members: Vec<(String, ConfigValue)> = Vec::new();
        let mut i: usize = 0;
        while i < self.members.len()
            invariant
                i <= self.members.len(),
                members.len() == i,
                forall|j: int|
                    0 <= j < i ==> (#[trigger] members[j]).0@ == self.members[j].0@ && members[j].1@
                        == self.members[j].1@,
            decreases self.members.len() - i,
        {
            members.push((self.members[i].0.clone(), self.members[i].1.clone()));
            i += 1;
        }
        let copy = Object { members };
        assert(copy@ =~= self@);
        copy
    }
}

impl ConfigValue {
    /// Whether `self` and `other` are the same tree.
    pub fn same(&self, other: &ConfigValue) -> (equal: bool)
        ensures
            equal == (self@ == other@),
        decreases self,
    {
        match (self, other) {
            (ConfigValue::Null, ConfigValue::Null) => true,
            (ConfigValue::Bool(a), ConfigValue::Bool(b)) => *a == *b,
            (ConfigValue::Int(a), ConfigValue::Int(b)) => *a == *b,
            (ConfigValue::Real(a), ConfigValue::Real(b)) => without_sign_of_zero(*a)
                == without_sign_of_zero(*b),
            (ConfigValue::Text(a), ConfigValue::Text(b)) => *a == *b,
            (ConfigValue::Array(a), ConfigValue::Array(b)) => same_items(a, b),
            (ConfigValue::Object(a), ConfigValue::Object(b)) => a.same(b),
            _ => false,
        }
    }
}

fn same_items(a: &Vec<ConfigValue>, b: &Vec<ConfigValue>) -> (equal: bool)
    ensures
        equal == (items_view(a@) == items_view(b@)),
    decreases a,
{
    if a.len() != b.len() {
        assert(items_view(a@).len() != items_view(b@).len());
        return false;
    }
    let mut i: usize = 0;
    while i < a.len()
        invariant
            i <= a.len(),
            a.len() == b.len(),
            forall|j: int| 0 <= j < i ==> (#[trigger] a[j])@ == b[j]@,
        decreases a.len() - i,
    {
        if !a[i].same(&b[i]) {
            assert(items_view(a@)[i as int] != items_view(b@)[i as int]);
            return false;
        }
        i += 1;
    }
    assert(items_view(a@) =~= items_view(b@));
    true
}

impl Object {
    /// Whether `self` and `other` hold the same members.
    pub fn same(&self, other: &Object) -> (equal: bool)
        ensures
            equal == (self@ == other@),
        decreases self,
    {
        if self.members.len() != other.members.len() {
            assert(self@.len() != other@.len());
            return false;
        }
        let mut i: usize = 0;
        while i < self.members.len()
            invariant
                i <= self.members.len(),
                self.members.len() == other.members.len(),
                forall|j: int| 0 <= j < i ==> (#[trigger] self@[j]) == other@[j],
            decreases self.members.len() - i,
        {
            if self.members[i].0 != other.members[i].0 || !self.members[i].1.same(
                &other.members[i].1,
            ) {
                assert(self@[i as int] != other@[i as int]);
                return false;
            }
            i += 1;
        }
        assert(self@ =~= other@);
        true
    }
}

impl PartialEq for ConfigValue {
    fn eq(&self, other: &ConfigValue) -> (equal: bool) {
        self.same(other)
    }
}

impl PartialEqSpecImpl for ConfigValue {
    open spec fn obeys_eq_spec() -> bool {
        true
    }

    open spec fn eq_spec(&self, other: &ConfigValue) -> bool {
        self@ == other@
    }
}

impl PartialEq for Object {
    fn eq(&self, other: &Object) -> (equal: bool) {
        self.same(other)
    }
}

impl PartialEqSpecImpl for Object {
    open spec fn obeys_eq_spec() -> bool {
        true
    }

    open spec fn eq_spec(&self, other: &Object) -> bool {
        self@ == other@
    }
}

} // verus!
