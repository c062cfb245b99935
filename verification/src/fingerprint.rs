//! The fingerprint of a configuration: a digest of the names of its members
//! and of their nesting, whatever their values.
//!
//! The names are met on a walk over the objects of the configuration, depth
//! first, the members of each object in their order. The list of the names
//! met is what is digested, with the hasher that the standard library offers
//! by default. Two configurations of the same layout meet the same names;
//! so do some of different layouts, since the list does not tell where an
//! object ends: `{"a": {"b": 1}}` and `{"a": 1, "b": 1}` both give `a`, `b`.

use std::collections::hash_map::DefaultHasher;
use std::hash::Hasher;
use vstd::prelude::*;
use vstd::bytes::{lemma_auto_spec_u64_to_from_le_bytes, spec_u64_to_le_bytes, u64_to_le_bytes};
use vstd::std_specs::hash::DefaultHasherAdditionalSpecFns;
use vstd::string::StringSliceAdditionalSpecFns;
use vstd::utf8::{
    encode_utf8, encode_utf8_decode_utf8, encode_utf8_valid_utf8,
    is_char_boundary_iff_is_leading_byte, is_char_boundary_iff_not_is_continuation_byte,
};
use crate::error::ConfigError;
use crate::value::{ConfigValue, Object, Tree};

verus! {

/// The names met on a walk over the first `n` members of an object, in
/// order: each member's name, followed, where its value is an object, by the
/// names met on the walk over that object.
pub open spec fn member_keys(members: Seq<(Seq<char>, Tree)>, n: nat) -> Seq<Seq<char>>
    decreases members, n,
{
    if n == 0 || n > members.len() {
        Seq::empty()
    } else {
        member_keys(members, (n - 1) as nat).push(members[n - 1].0) + nested_keys(members[n - 1].1)
    }
}

/// The names met on a walk over `tree`, where it is an object; none otherwise.
pub open spec fn nested_keys(tree: Tree) -> Seq<Seq<char>>
    decreases tree,
{
    match tree {
        Tree::Object(members) => member_keys(members, members.len()),
        _ => Seq::empty(),
    }
}

/// The bytes of the first `n` names, each followed by the byte `0xFF`, which
/// no name holds.
pub open spec fn names_bytes(keys: Seq<Seq<char>>, n: nat) -> Seq<u8>
    decreases n,
{
    if n == 0 || n > keys.len() {
        Seq::empty()
    } else {
        names_bytes(keys, (n - 1) as nat) + encode_utf8(keys[n - 1]).push(0xFFu8)
    }
}

/// The bytes that are digested for a list of names: their number as eight
/// little-endian bytes, then each name with its end mark.
pub open spec fn key_stream(keys: Seq<Seq<char>>) -> Seq<u8> {
    spec_u64_to_le_bytes(keys.len() as u64) + names_bytes(keys, keys.len())
}

/// The digest of a list of names.
pub open spec fn keys_digest(keys: Seq<Seq<char>>) -> u64 {
    DefaultHasher::spec_finish(seq![key_stream(keys)])
}

/// The fingerprint of a tree whose root is an object.
pub open spec fn spec_fingerprint(tree: Tree) -> u64 {
    keys_digest(nested_keys(tree))
}

/// Whether two trees have the same layout: where one is an object, so is the
/// other, with members of the same names, whose values have the same layout
/// in turn. What scalars and arrays hold plays no part.
pub open spec fn same_shape(a: Tree, b: Tree) -> bool
    decreases a,
{
    match (a, b) {
        (Tree::Object(x), Tree::Object(y)) => {
            &&& x.len() == y.len()
            &&& forall|i: int|
                0 <= i < x.len() ==> (#[trigger] x[i]).0 == y[i].0 && same_shape(x[i].1, y[i].1)
        },
        (Tree::Object(_), _) => false,
        (_, Tree::Object(_)) => false,
        _ => true,
    }
}

/// Trees of the same layout yield the same names on a walk.
pub proof fn lemma_same_shape_same_keys(a: Tree, b: Tree)
    requires
        same_shape(a, b),
    ensures
        nested_keys(a) == nested_keys(b),
    decreases a,
{
    if let Tree::Object(x) = a {
        let y = b->Object_0;
        lemma_same_members_same_keys(x, y, x.len());
    }
}

/// Members of the same names and layouts yield the same names on a walk.
pub proof fn lemma_same_members_same_keys(
    x: Seq<(Seq<char>, Tree)>,
    y: Seq<(Seq<char>, Tree)>,
    n: nat,
)
    requires
        same_shape(Tree::Object(x), Tree::Object(y)),
        n <= x.len(),
    ensures
        member_keys(x, n) == member_keys(y, n),
    decreases x, n,
{
    if n > 0 {
        lemma_same_members_same_keys(x, y, (n - 1) as nat);
        assert(x[n - 1].0 == y[n - 1].0);
        lemma_same_shape_same_keys(x[n - 1].1, y[n - 1].1);
    }
}

/// The fingerprint depends on the layout alone: two trees of the same layout
/// have the same fingerprint, whatever their scalars and arrays hold.
pub proof fn lemma_same_shape_same_fingerprint(a: Tree, b: Tree)
    requires
        same_shape(a, b),
    ensures
        spec_fingerprint(a) == spec_fingerprint(b),
{
    lemma_same_shape_same_keys(a, b);
}

/// No name holds the end mark: the byte `0xFF` does not occur in UTF-8.
pub proof fn lemma_no_end_mark(name: Seq<char>, i: int)
    requires
        0 <= i < encode_utf8(name).len(),
    ensures
        encode_utf8(name)[i] != 0xFFu8,
{
    let bytes = encode_utf8(name);
    encode_utf8_valid_utf8(name);
    is_char_boundary_iff_not_is_continuation_byte(bytes, i);
    is_char_boundary_iff_is_leading_byte(bytes, i);
}

/// The bytes of one or more names end with the end mark.
proof fn lemma_names_bytes_end(keys: Seq<Seq<char>>, n: nat)
    requires
        0 < n <= keys.len(),
    ensures
        names_bytes(keys, n).len() > 0,
        names_bytes(keys, n).last() == 0xFFu8,
        names_bytes(keys, n) == names_bytes(keys, (n - 1) as nat) + encode_utf8(keys[n - 1]).push(
            0xFFu8,
        ),
{
}

/// The bytes of the first `n` names determine those names.
pub proof fn lemma_names_bytes_injective(a: Seq<Seq<char>>, b: Seq<Seq<char>>, n: nat)
    requires
        n <= a.len(),
        n <= b.len(),
        names_bytes(a, n) == names_bytes(b, n),
    ensures
        forall|i: int| 0 <= i < n ==> a[i] == b[i],
    decreases n,
{
    if n > 0 {
        let stream = names_bytes(a, n);
        let head_a = names_bytes(a, (n - 1) as nat);
        let head_b = names_bytes(b, (n - 1) as nat);
        let name_a = encode_utf8(a[n - 1]);
        let name_b = encode_utf8(b[n - 1]);
        lemma_names_bytes_end(a, n);
        lemma_names_bytes_end(b, n);
        assert(stream.len() == head_a.len() + name_a.len() + 1);
        assert(stream.len() == head_b.len() + name_b.len() + 1);
        if name_a.len() < name_b.len() {
            lemma_names_bytes_end(a, (n - 1) as nat);
            let k = head_a.len() - 1;
            assert(stream[k] == head_a[k]);
            assert(stream[k] == name_b[k - head_b.len()]);
            lemma_no_end_mark(b[n - 1], k - head_b.len());
        }
        if name_b.len() < name_a.len() {
            lemma_names_bytes_end(b, (n - 1) as nat);
            let k = head_b.len() - 1;
            assert(stream[k] == head_b[k]);
            assert(stream[k] == name_a[k - head_a.len()]);
            lemma_no_end_mark(a[n - 1], k - head_a.len());
        }
        assert(head_a =~= stream.subrange(0, head_a.len() as int));
        assert(head_b =~= stream.subrange(0, head_a.len() as int));
        assert(name_a =~= stream.subrange(head_a.len() as int, stream.len() - 1));
        assert(name_b =~= stream.subrange(head_a.len() as int, stream.len() - 1));
        encode_utf8_decode_utf8(a[n - 1]);
        encode_utf8_decode_utf8(b[n - 1]);
        lemma_names_bytes_injective(a, b, (n - 1) as nat);
    }
}

/// The bytes that are digested determine the list of names: two lists that
/// differ are digested from different bytes, so that their digests differ
/// unless the digest itself fails to tell the bytes apart.
pub proof fn lemma_key_stream_injective(a: Seq<Seq<char>>, b: Seq<Seq<char>>)
    requires
        a.len() <= u64::MAX,
        b.len() <= u64::MAX,
        key_stream(a) == key_stream(b),
    ensures
        a == b,
{
    lemma_auto_spec_u64_to_from_le_bytes();
    let count_a = spec_u64_to_le_bytes(a.len() as u64);
    let count_b = spec_u64_to_le_bytes(b.len() as u64);
    assert(count_a =~= key_stream(a).subrange(0, 8));
    assert(count_b =~= key_stream(b).subrange(0, 8));
    assert(a.len() == b.len());
    assert(names_bytes(a, a.len()) =~= key_stream(a).subrange(8, key_stream(a).len() as int));
    assert(names_bytes(b, b.len()) =~= key_stream(b).subrange(8, key_stream(b).len() as int));
    lemma_names_bytes_injective(a, b, a.len());
    assert(a =~= b);
}

/// The names that a list of strings holds.
pub open spec fn names(keys: Seq<String>) -> Seq<Seq<char>> {
    Seq::new(keys.len(), |i: int| keys[i]@)
}

/// Appends to `keys` the names met on a walk over `object`.
pub fn generate_keys(object: &Object, keys: Vec<String>) -> (all: Vec<String>)
    ensures
        names(all@) == names(keys@) + member_keys(object@, object@.len()),
    decreases object@,
{
    let mut all = keys;
    let mut i: usize = 0;
    while i < object.len()
        invariant
            i <= object@.len(),
            names(all@) == names(keys@) + member_keys(object@, i as nat),
        decreases object@.len() - i,
    {
        let ghost before = names(all@);
        all.push(object.key(i).clone());
        assert(names(all@) =~= before.push(object@[i as int].0));
        let value = object.value(i);
        match value {
            ConfigValue::Object(nested) => {
                assert(object@[i as int].1 == Tree::Object(nested@));
                assert(object@[i as int].1->Object_0 == nested@);
                assert(decreases_to!(object@ => object@[i as int]));
                all = generate_keys(nested, all);
            },
            _ => {
                assert(nested_keys(value@) =~= Seq::empty());
            },
        }
        assert(member_keys(object@, (i + 1) as nat) == member_keys(object@, i as nat).push(
            object@[i as int].0,
        ) + nested_keys(object@[i as int].1));
        assert(names(all@) =~= names(keys@) + member_keys(object@, (i + 1) as nat));
        i += 1;
    }
    all
}

/// The digest of a list of names.
pub fn digest_keys(keys: &Vec<String>) -> (digest: u64)
    ensures
        digest == keys_digest(names(keys@)),
{
    let mut stream = u64_to_le_bytes(keys.len() as u64);
    let mut i: usize = 0;
    while i < keys.len()
        invariant
            i <= keys.len(),
            stream@ == spec_u64_to_le_bytes(keys.len() as u64) + names_bytes(
                names(keys@),
                i as nat,
            ),
        decreases keys.len() - i,
    {
        let ghost before = stream@;
        let bytes = keys[i].as_str().as_bytes();
        let mut j: usize = 0;
        while j < bytes.len()
            invariant
                j <= bytes.len(),
                stream@ == before + bytes@.subrange(0, j as int),
            decreases bytes.len() - j,
        {
            stream.push(bytes[j]);
            assert(stream@ =~= before + bytes@.subrange(0, j + 1));
            j += 1;
        }
        stream.push(0xFFu8);
        assert(stream@ =~= before + encode_utf8(names(keys@)[i as int]).push(0xFFu8));
        assert(stream@ =~= spec_u64_to_le_bytes(keys.len() as u64) + names_bytes(
            names(keys@),
            (i + 1) as nat,
        ));
        i += 1;
    }
    let mut hasher = DefaultHasher::new();
    hasher.write(stream.as_slice());
    assert(hasher@ =~= seq![key_stream(names(keys@))]);
    hasher.finish()
}

/// The fingerprint of a configuration. A root that is not an object has none.
pub fn calculate_cfg_hash(cfg: &ConfigValue) -> (digest: Result<u64, ConfigError>)
    ensures
        match digest {
            Ok(h) => cfg@ is Object && h == spec_fingerprint(cfg@),
            Err(e) => !(cfg@ is Object) && e == ConfigError::ShapeError,
        },
{
    match cfg {
        ConfigValue::Object(object) => {
            let keys = generate_keys(object, Vec::new());
            assert(names(keys@) =~= nested_keys(cfg@));
            Ok(digest_keys(&keys))
        },
        _ => Err(ConfigError::ShapeError),
    }
}

} // verus!
