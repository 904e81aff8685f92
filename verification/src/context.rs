//! Scoped context: a storage handle that prepends an immutable byte-prefix
//! (the base key) to every key it derives, enabling logically isolated
//! sub-stores within one physical table.
//!
//! A child context extends the parent's base key with the canonical
//! serialization of a scope index. The encoding is fixed-width, so the
//! serialized forms of two distinct scopes are never a byte-prefix of one
//! another, and sub-scopes cannot alias or leak into each other's prefix
//! scans; [`lemma_sub_scope_isolation`] proves this.

use vstd::prelude::*;

use crate::bytes::bytes_concat;
use crate::table::TableName;

verus! {

/// The canonical serialization of a scope index: its eight bytes, least
/// significant first.
pub open spec fn scope_bytes(scope: u64) -> Seq<u8> {
    seq![
        (scope & 0xff) as u8,
        ((scope >> 8) & 0xff) as u8,
        ((scope >> 16) & 0xff) as u8,
        ((scope >> 24) & 0xff) as u8,
        ((scope >> 32) & 0xff) as u8,
        ((scope >> 40) & 0xff) as u8,
        ((scope >> 48) & 0xff) as u8,
        ((scope >> 56) & 0xff) as u8,
    ]
}

/// Relies on bcs::to_bytes for a u64: BCS writes a u64 as its eight
/// little-endian bytes, and serializing an integer into a vector cannot
/// fail.
#[verifier::external_body]
fn bcs_serialize_u64(scope: u64) -> (r: Vec<u8>)
    ensures
        r@ == scope_bytes(scope),
{
    bcs::to_bytes(&scope).unwrap()
}

/// The canonical encoding is injective: distinct scope indexes serialize
/// to distinct byte strings.
pub proof fn lemma_scope_bytes_injective(x: u64, y: u64)
    requires
        scope_bytes(x) == scope_bytes(y),
    ensures
        x == y,
{
    assert(scope_bytes(x)[0] == scope_bytes(y)[0]);
    assert(scope_bytes(x)[1] == scope_bytes(y)[1]);
    assert(scope_bytes(x)[2] == scope_bytes(y)[2]);
    assert(scope_bytes(x)[3] == scope_bytes(y)[3]);
    assert(scope_bytes(x)[4] == scope_bytes(y)[4]);
    assert(scope_bytes(x)[5] == scope_bytes(y)[5]);
    assert(scope_bytes(x)[6] == scope_bytes(y)[6]);
    assert(scope_bytes(x)[7] == scope_bytes(y)[7]);
    assert(x == y) by (bit_vector)
        requires
            (x & 0xff) as u8 == (y & 0xff) as u8,
            ((x >> 8) & 0xff) as u8 == ((y >> 8) & 0xff) as u8,
            ((x >> 16) & 0xff) as u8 == ((y >> 16) & 0xff) as u8,
            ((x >> 24) & 0xff) as u8 == ((y >> 24) & 0xff) as u8,
            ((x >> 32) & 0xff) as u8 == ((y >> 32) & 0xff) as u8,
            ((x >> 40) & 0xff) as u8 == ((y >> 40) & 0xff) as u8,
            ((x >> 48) & 0xff) as u8 == ((y >> 48) & 0xff) as u8,
            ((x >> 56) & 0xff) as u8 == ((y >> 56) & 0xff) as u8,
    ;
}

/// A scoped context: the identity of the backing table, the base key
/// prefix prepended to every derived key, and an opaque caller payload.
///
/// The live backend client is held by the caller beside this value and
/// shared by reference among all contexts derived from one another; it
/// carries no per-call state, so no exclusive owner is needed.
pub struct DynamoDbContext<E> {
    /// The validated name of the backing table.
    pub table: TableName,
    /// The key prefix prepended to every key this context derives;
    /// immutable for the lifetime of the context.
    pub base_key: Vec<u8>,
    /// The caller-defined payload.
    pub extra: E,
}

impl<E> DynamoDbContext<E> {
    /// Assemble a context for a table whose existence has been ensured.
    pub fn new(table: TableName, base_key: Vec<u8>, extra: E) -> (r: Self)
        ensures
            r.table == table,
            r.base_key == base_key,
            r.extra == extra,
    {
        DynamoDbContext { table, base_key, extra }
    }

    /// Derive the fully-qualified key of a scoped item: the base key
    /// followed by the canonical serialization of the scope index.
    pub fn derive_key(&self, scope: u64) -> (r: Vec<u8>)
        ensures
            r@ == self.base_key@ + scope_bytes(scope),
    {
        let serialized = bcs_serialize_u64(scope);
        bytes_concat(&self.base_key, &serialized)
    }

    /// Clone this context while entering a sub-scope: the same table and
    /// shared backend, the base key extended with the serialized scope,
    /// and the payload replaced — not merged — with `new_extra`.
    pub fn clone_with_sub_scope<F>(&self, scope: u64, new_extra: F) -> (r: DynamoDbContext<F>)
        ensures
            r.table == self.table,
            r.base_key@ == self.base_key@ + scope_bytes(scope),
            r.extra == new_extra,
    {
        DynamoDbContext {
            table: self.table.clone(),
            base_key: self.derive_key(scope),
            extra: new_extra,
        }
    }
}

/// Sub-scope isolation: two contexts derived from one parent with distinct
/// scope indexes can never address each other's items. Their base keys
/// differ, neither base key is a byte-prefix of any key the other derives,
/// and no fully-qualified key of the one equals a fully-qualified key of
/// the other.
pub proof fn lemma_sub_scope_isolation(
    base: Seq<u8>,
    s1: u64,
    s2: u64,
    k1: Seq<u8>,
    k2: Seq<u8>,
)
    requires
        s1 != s2,
    ensures
        base + scope_bytes(s1) != base + scope_bytes(s2),
        !(base + scope_bytes(s1)).is_prefix_of(base + scope_bytes(s2) + k2),
        base + scope_bytes(s1) + k1 != base + scope_bytes(s2) + k2,
{
    let e1 = scope_bytes(s1);
    let e2 = scope_bytes(s2);
    assert(e1 != e2) by {
        if e1 == e2 {
            lemma_scope_bytes_injective(s1, s2);
        }
    }
    assert(base + e1 != base + e2) by {
        if base + e1 == base + e2 {
            assert forall|i: int| 0 <= i < 8 implies e1[i] == e2[i] by {
                assert((base + e1)[base.len() + i] == e1[i]);
                assert((base + e2)[base.len() + i] == e2[i]);
            }
            assert(e1 =~= e2);
        }
    }
    assert(!(base + e1).is_prefix_of(base + e2 + k2)) by {
        if (base + e1).is_prefix_of(base + e2 + k2) {
            assert(base + e1 =~= (base + e2 + k2).subrange(0, (base + e1).len() as int));
            assert forall|i: int| 0 <= i < 8 implies e1[i] == e2[i] by {
                assert((base + e1)[base.len() + i] == e1[i]);
                assert((base + e2 + k2)[base.len() + i] == (base + e2)[base.len() + i]);
                assert((base + e2)[base.len() + i] == e2[i]);
            }
            assert(e1 =~= e2);
        }
    }
    assert(base + e1 + k1 != base + e2 + k2) by {
        if base + e1 + k1 == base + e2 + k2 {
            assert forall|i: int| 0 <= i < 8 implies e1[i] == e2[i] by {
                assert((base + e1 + k1)[base.len() + i] == (base + e1)[base.len() + i]);
                assert((base + e1)[base.len() + i] == e1[i]);
                assert((base + e2 + k2)[base.len() + i] == (base + e2)[base.len() + i]);
                assert((base + e2)[base.len() + i] == e2[i]);
            }
            assert(e1 =~= e2);
        }
    }
}

} // verus!
