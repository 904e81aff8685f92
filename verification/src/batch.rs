//! Write batches: ordered lists of put, delete and prefix-delete
//! operations, their effect on a store, and batch simplification.
//!
//! The effect of a batch is specified pointwise: [`eval_ops`] folds the
//! operations over the entry a single key holds, and a batch means the same
//! thing as another exactly when they agree on every key and every starting
//! entry. Simplification collapses conflicting operations on the same key —
//! last write wins, a later delete removes an earlier put, a later prefix
//! delete removes every covered operation — without changing that meaning.

use vstd::prelude::*;

use crate::bytes::{bytes_eq, bytes_has_prefix, clone_bytes, lemma_prefix_transitive};

verus! {

/// A single write operation of a batch.
#[derive(Clone, Debug, PartialEq, Eq)]
pub enum WriteOperation {
    /// Store `value` under `key`.
    Put {
        /// The full key to store under.
        key: Vec<u8>,
        /// The value to store.
        value: Vec<u8>,
    },
    /// Remove the entry under `key`, if any.
    Delete {
        /// The full key to remove.
        key: Vec<u8>,
    },
    /// Remove every entry whose key starts with `key_prefix`.
    DeletePrefix {
        /// The prefix of the keys to remove.
        key_prefix: Vec<u8>,
    },
}

/// The mathematical form of a write operation, over byte sequences.
pub enum OpView {
    /// Store `value` under `key`.
    Put {
        /// The full key to store under.
        key: Seq<u8>,
        /// The value to store.
        value: Seq<u8>,
    },
    /// Remove the entry under `key`, if any.
    Delete {
        /// The full key to remove.
        key: Seq<u8>,
    },
    /// Remove every entry whose key starts with `key_prefix`.
    DeletePrefix {
        /// The prefix of the keys to remove.
        key_prefix: Seq<u8>,
    },
}

impl View for WriteOperation {
    type V = OpView;

    open spec fn view(&self) -> OpView {
        match self {
            WriteOperation::Put { key, value } => OpView::Put { key: key@, value: value@ },
            WriteOperation::Delete { key } => OpView::Delete { key: key@ },
            WriteOperation::DeletePrefix { key_prefix } => OpView::DeletePrefix {
                key_prefix: key_prefix@,
            },
        }
    }
}

/// The view of a list of operations.
pub open spec fn ops_view(ops: Seq<WriteOperation>) -> Seq<OpView> {
    ops.map_values(|op: WriteOperation| op@)
}

/// An ordered list of write operations, applied first to last.
///
/// A batch is not atomic: execution may apply a prefix of its chunks and
/// fail, and callers recover by resubmitting the same batch — puts
/// overwrite, and deletes of already-absent keys are no-ops.
#[derive(Clone, Debug, PartialEq, Eq)]
pub struct Batch {
    /// The operations of the batch, in order.
    pub operations: Vec<WriteOperation>,
}

impl View for Batch {
    type V = Seq<OpView>;

    open spec fn view(&self) -> Seq<OpView> {
        ops_view(self.operations@)
    }
}

/// The entry a key holds after one operation, given the entry `cur` it held
/// before: a put on that key stores its value, a delete on that key or a
/// prefix delete covering it removes the entry, and any other operation
/// leaves it unchanged.
pub open spec fn eval_op(op: OpView, k: Seq<u8>, cur: Option<Seq<u8>>) -> Option<Seq<u8>> {
    match op {
        OpView::Put { key, value } => if key == k {
            Some(value)
        } else {
            cur
        },
        OpView::Delete { key } => if key == k {
            None
        } else {
            cur
        },
        OpView::DeletePrefix { key_prefix } => if key_prefix.is_prefix_of(k) {
            None
        } else {
            cur
        },
    }
}

/// The entry a key holds after a list of operations is applied in order,
/// given the entry `cur` it held before.
pub open spec fn eval_ops(ops: Seq<OpView>, k: Seq<u8>, cur: Option<Seq<u8>>) -> Option<Seq<u8>>
    decreases ops.len(),
{
    if ops.len() == 0 {
        cur
    } else {
        eval_ops(ops.drop_first(), k, eval_op(ops[0], k, cur))
    }
}

/// Whether an operation addresses a single key rather than a prefix.
pub open spec fn is_key_op(op: OpView) -> bool {
    !(op matches OpView::DeletePrefix { .. })
}

/// The key a put or delete addresses, or the prefix of a prefix delete.
pub open spec fn op_key(op: OpView) -> Seq<u8> {
    match op {
        OpView::Put { key, value } => key,
        OpView::Delete { key } => key,
        OpView::DeletePrefix { key_prefix } => key_prefix,
    }
}

/// Whether a list of operations is in simplified form: every prefix delete
/// precedes every single-key operation, and no two single-key operations
/// address the same key.
pub open spec fn simplified(ops: Seq<OpView>) -> bool {
    &&& (forall|i: int, j: int|
        #![trigger ops[i], ops[j]]
        0 <= i < j < ops.len() && is_key_op(ops[i]) ==> is_key_op(ops[j]))
    &&& (forall|i: int, j: int|
        #![trigger ops[i], ops[j]]
        0 <= i < j < ops.len() && is_key_op(ops[i]) && is_key_op(ops[j]) ==> op_key(ops[i])
            != op_key(ops[j]))
    &&& (forall|i: int, j: int|
        #![trigger ops[i], ops[j]]
        0 <= i < j < ops.len() && !is_key_op(ops[i]) && !is_key_op(ops[j]) ==> !op_key(
            ops[j],
        ).is_prefix_of(op_key(ops[i])))
}

/// Appending one operation evaluates it after the rest.
pub proof fn lemma_eval_ops_push(ops: Seq<OpView>, op: OpView, k: Seq<u8>, cur: Option<Seq<u8>>)
    ensures
        eval_ops(ops.push(op), k, cur) == eval_op(op, k, eval_ops(ops, k, cur)),
    decreases ops.len(),
{
    if ops.len() == 0 {
        assert(ops.push(op).drop_first() =~= Seq::<OpView>::empty());
        assert(ops.push(op)[0] == op);
        assert(eval_ops(ops.push(op), k, cur) == eval_ops(
            Seq::<OpView>::empty(),
            k,
            eval_op(op, k, cur),
        ));
        assert(eval_ops(Seq::<OpView>::empty(), k, eval_op(op, k, cur)) == eval_op(op, k, cur));
    } else {
        assert(ops.push(op).drop_first() =~= ops.drop_first().push(op));
        assert(ops.push(op)[0] == ops[0]);
        lemma_eval_ops_push(ops.drop_first(), op, k, eval_op(ops[0], k, cur));
        assert(eval_ops(ops.push(op), k, cur) == eval_ops(
            ops.drop_first().push(op),
            k,
            eval_op(ops[0], k, cur),
        ));
        assert(eval_ops(ops, k, cur) == eval_ops(ops.drop_first(), k, eval_op(ops[0], k, cur)));
    }
}

/// Concatenated operation lists evaluate in sequence.
pub proof fn lemma_eval_ops_concat(a: Seq<OpView>, b: Seq<OpView>, k: Seq<u8>, cur: Option<Seq<u8>>)
    ensures
        eval_ops(a + b, k, cur) == eval_ops(b, k, eval_ops(a, k, cur)),
    decreases a.len(),
{
    if a.len() == 0 {
        assert(a + b =~= b);
    } else {
        assert((a + b).drop_first() =~= a.drop_first() + b);
        assert((a + b)[0] == a[0]);
        lemma_eval_ops_concat(a.drop_first(), b, k, eval_op(a[0], k, cur));
    }
}

/// Writing a value and reading the same key back yields that value,
/// whatever the key held before.
pub proof fn lemma_put_round_trip(k: Seq<u8>, v: Seq<u8>, cur: Option<Seq<u8>>)
    ensures
        eval_ops(seq![OpView::Put { key: k, value: v }], k, cur) == Some(v),
{
    let s = seq![OpView::Put { key: k, value: v }];
    assert(s.drop_first() =~= Seq::<OpView>::empty());
    assert(eval_ops(s, k, cur) == eval_ops(Seq::<OpView>::empty(), k, eval_op(s[0], k, cur)));
    assert(eval_ops(Seq::<OpView>::empty(), k, eval_op(s[0], k, cur)) == eval_op(s[0], k, cur));
}

/// Last write wins: a batch that puts `v1`, deletes, and puts `v2` under
/// one key leaves that key holding `v2`, whatever it held before.
pub proof fn lemma_last_write_wins(k: Seq<u8>, v1: Seq<u8>, v2: Seq<u8>, cur: Option<Seq<u8>>)
    ensures
        eval_ops(
            seq![
                OpView::Put { key: k, value: v1 },
                OpView::Delete { key: k },
                OpView::Put { key: k, value: v2 },
            ],
            k,
            cur,
        ) == Some(v2),
{
    let op1 = OpView::Put { key: k, value: v1 };
    let op2 = OpView::Delete { key: k };
    let op3 = OpView::Put { key: k, value: v2 };
    let s = seq![op1, op2, op3];
    assert(s.drop_first() =~= seq![op2, op3]);
    assert(seq![op2, op3].drop_first() =~= seq![op3]);
    assert(seq![op3].drop_first() =~= Seq::<OpView>::empty());
    assert(eval_ops(s, k, cur) == eval_ops(seq![op2, op3], k, Some(v1)));
    assert(eval_ops(seq![op2, op3], k, Some(v1)) == eval_ops(seq![op3], k, None));
    assert(eval_ops(seq![op3], k, None) == eval_ops(Seq::<OpView>::empty(), k, Some(v2)));
    assert(eval_ops(Seq::<OpView>::empty(), k, Some(v2)) == Some(v2));
}

/// Whether an entry is removed by the discriminator `t`: by byte equality,
/// or — for a prefix delete — by `t` being a prefix of it.
pub open spec fn removes(t: Seq<u8>, by_prefix: bool, x: Seq<u8>) -> bool {
    if by_prefix {
        t.is_prefix_of(x)
    } else {
        x == t
    }
}

/// The keys of `s` not removed by `t`, in order.
pub open spec fn keys_without(s: Seq<Seq<u8>>, t: Seq<u8>, by_prefix: bool) -> Seq<Seq<u8>>
    decreases s.len(),
{
    if s.len() == 0 {
        s
    } else {
        let front = keys_without(s.drop_last(), t, by_prefix);
        if removes(t, by_prefix, s.last()) {
            front
        } else {
            front.push(s.last())
        }
    }
}

/// The put pairs of `ps` whose key is not removed by `t`, in order.
pub open spec fn puts_without(
    ps: Seq<(Seq<u8>, Seq<u8>)>,
    t: Seq<u8>,
    by_prefix: bool,
) -> Seq<(Seq<u8>, Seq<u8>)>
    decreases ps.len(),
{
    if ps.len() == 0 {
        ps
    } else {
        let front = puts_without(ps.drop_last(), t, by_prefix);
        if removes(t, by_prefix, ps.last().0) {
            front
        } else {
            front.push(ps.last())
        }
    }
}

/// Whether some prefix in the list covers `k`.
pub open spec fn covered_by_any(prefixes: Seq<Seq<u8>>, k: Seq<u8>) -> bool {
    exists|q: Seq<u8>| prefixes.contains(q) && q.is_prefix_of(k)
}

/// The effect of a list of prefix deletes on the entry of one key.
pub open spec fn eval_prefix_stage(prefixes: Seq<Seq<u8>>, k: Seq<u8>, cur: Option<Seq<u8>>) -> Option<
    Seq<u8>,
> {
    if covered_by_any(prefixes, k) {
        None
    } else {
        cur
    }
}

/// The effect of a list of single-key deletes on the entry of one key.
pub open spec fn eval_delete_stage(deletes: Seq<Seq<u8>>, k: Seq<u8>, cur: Option<Seq<u8>>) -> Option<
    Seq<u8>,
> {
    if deletes.contains(k) {
        None
    } else {
        cur
    }
}

/// The effect of a list of puts on the entry of one key: the value of the
/// last put addressing it.
pub open spec fn eval_put_stage(
    puts: Seq<(Seq<u8>, Seq<u8>)>,
    k: Seq<u8>,
    cur: Option<Seq<u8>>,
) -> Option<Seq<u8>>
    decreases puts.len(),
{
    if puts.len() == 0 {
        cur
    } else if puts.last().0 == k {
        Some(puts.last().1)
    } else {
        eval_put_stage(puts.drop_last(), k, cur)
    }
}

/// The effect on one key of prefix deletes, then single-key deletes, then
/// puts.
pub open spec fn eval_state(
    prefixes: Seq<Seq<u8>>,
    deletes: Seq<Seq<u8>>,
    puts: Seq<(Seq<u8>, Seq<u8>)>,
    k: Seq<u8>,
    cur: Option<Seq<u8>>,
) -> Option<Seq<u8>> {
    eval_put_stage(puts, k, eval_delete_stage(deletes, k, eval_prefix_stage(prefixes, k, cur)))
}

/// The views of a list of byte keys.
pub open spec fn keys_view(v: Seq<Vec<u8>>) -> Seq<Seq<u8>> {
    v.map_values(|x: Vec<u8>| x@)
}

/// The views of a list of key/value pairs.
pub open spec fn pairs_view(v: Seq<(Vec<u8>, Vec<u8>)>) -> Seq<(Seq<u8>, Seq<u8>)> {
    v.map_values(|x: (Vec<u8>, Vec<u8>)| (x.0@, x.1@))
}

/// Prefix-delete operations for a list of prefixes.
pub open spec fn delete_prefix_ops(prefixes: Seq<Seq<u8>>) -> Seq<OpView> {
    prefixes.map_values(|p: Seq<u8>| OpView::DeletePrefix { key_prefix: p })
}

/// Delete operations for a list of keys.
pub open spec fn delete_ops(keys: Seq<Seq<u8>>) -> Seq<OpView> {
    keys.map_values(|x: Seq<u8>| OpView::Delete { key: x })
}

/// Put operations for a list of key/value pairs.
pub open spec fn put_ops(pairs: Seq<(Seq<u8>, Seq<u8>)>) -> Seq<OpView> {
    pairs.map_values(|pv: (Seq<u8>, Seq<u8>)| OpView::Put { key: pv.0, value: pv.1 })
}

/// The operation list of a partitioned batch: prefix deletes, then
/// single-key deletes, then puts.
pub open spec fn pending_ops(
    prefixes: Seq<Seq<u8>>,
    deletes: Seq<Seq<u8>>,
    puts: Seq<(Seq<u8>, Seq<u8>)>,
) -> Seq<OpView> {
    delete_prefix_ops(prefixes) + delete_ops(deletes) + put_ops(puts)
}

/// No two keys of the list are equal.
pub open spec fn distinct_keys(s: Seq<Seq<u8>>) -> bool {
    forall|i: int, j: int| #![trigger s[i], s[j]] 0 <= i < j < s.len() ==> s[i] != s[j]
}

/// No two put pairs of the list address the same key.
pub open spec fn distinct_put_keys(ps: Seq<(Seq<u8>, Seq<u8>)>) -> bool {
    forall|i: int, j: int| #![trigger ps[i], ps[j]] 0 <= i < j < ps.len() ==> ps[i].0 != ps[j].0
}

/// No put addresses a key that is also deleted.
pub open spec fn delete_put_disjoint(deletes: Seq<Seq<u8>>, ps: Seq<(Seq<u8>, Seq<u8>)>) -> bool {
    forall|i: int| 0 <= i < ps.len() ==> !deletes.contains(#[trigger] ps[i].0)
}

/// No prefix of the list covers an earlier one: a later, shorter prefix
/// delete subsumes every covered predecessor.
pub open spec fn prefix_minimal(prefixes: Seq<Seq<u8>>) -> bool {
    forall|i: int, j: int|
        #![trigger prefixes[i], prefixes[j]]
        0 <= i < j < prefixes.len() ==> !prefixes[j].is_prefix_of(prefixes[i])
}

proof fn lemma_keys_without_push(s: Seq<Seq<u8>>, x: Seq<u8>, t: Seq<u8>, by_prefix: bool)
    ensures
        keys_without(s.push(x), t, by_prefix) == if removes(t, by_prefix, x) {
            keys_without(s, t, by_prefix)
        } else {
            keys_without(s, t, by_prefix).push(x)
        },
{
    assert(s.push(x).drop_last() =~= s);
    assert(s.push(x).last() == x);
}

proof fn lemma_puts_without_push(
    ps: Seq<(Seq<u8>, Seq<u8>)>,
    pv: (Seq<u8>, Seq<u8>),
    t: Seq<u8>,
    by_prefix: bool,
)
    ensures
        puts_without(ps.push(pv), t, by_prefix) == if removes(t, by_prefix, pv.0) {
            puts_without(ps, t, by_prefix)
        } else {
            puts_without(ps, t, by_prefix).push(pv)
        },
{
    assert(ps.push(pv).drop_last() =~= ps);
    assert(ps.push(pv).last() == pv);
}

proof fn lemma_keys_without_contains(s: Seq<Seq<u8>>, t: Seq<u8>, by_prefix: bool, x: Seq<u8>)
    ensures
        keys_without(s, t, by_prefix).contains(x) <==> (s.contains(x) && !removes(t, by_prefix, x)),
    decreases s.len(),
{
    if s.len() > 0 {
        let front = s.drop_last();
        let fw = keys_without(front, t, by_prefix);
        let r = keys_without(s, t, by_prefix);
        lemma_keys_without_contains(front, t, by_prefix, x);
        if removes(t, by_prefix, s.last()) {
            assert(r == fw);
            if s.contains(x) && !removes(t, by_prefix, x) {
                let i = choose|i: int| 0 <= i < s.len() && s[i] == x;
                assert(i < s.len() - 1);
                assert(front[i] == x);
                assert(front.contains(x));
            }
            if fw.contains(x) {
                let i = choose|i: int| 0 <= i < front.len() && front[i] == x;
                assert(s[i] == x);
                assert(s.contains(x));
            }
        } else {
            assert(r == fw.push(s.last()));
            if s.contains(x) && !removes(t, by_prefix, x) {
                let i = choose|i: int| 0 <= i < s.len() && s[i] == x;
                if i < s.len() - 1 {
                    assert(front[i] == x);
                    assert(front.contains(x));
                    let j = choose|j: int| 0 <= j < fw.len() && fw[j] == x;
                    assert(r[j] == x);
                    assert(r.contains(x));
                } else {
                    assert(r[fw.len() as int] == x);
                    assert(r.contains(x));
                }
            }
            if r.contains(x) {
                let j = choose|j: int| 0 <= j < r.len() && r[j] == x;
                if j < fw.len() {
                    assert(fw[j] == x);
                    assert(fw.contains(x));
                    let i = choose|i: int| 0 <= i < front.len() && front[i] == x;
                    assert(s[i] == x);
                    assert(s.contains(x));
                } else {
                    assert(x == s.last());
                    assert(s.contains(x));
                }
            }
        }
    }
}

proof fn lemma_puts_without_contains(
    ps: Seq<(Seq<u8>, Seq<u8>)>,
    t: Seq<u8>,
    by_prefix: bool,
    pv: (Seq<u8>, Seq<u8>),
)
    ensures
        puts_without(ps, t, by_prefix).contains(pv) <==> (ps.contains(pv) && !removes(
            t,
            by_prefix,
            pv.0,
        )),
    decreases ps.len(),
{
    if ps.len() > 0 {
        let front = ps.drop_last();
        let fw = puts_without(front, t, by_prefix);
        let r = puts_without(ps, t, by_prefix);
        lemma_puts_without_contains(front, t, by_prefix, pv);
        if removes(t, by_prefix, ps.last().0) {
            assert(r == fw);
            if ps.contains(pv) && !removes(t, by_prefix, pv.0) {
                let i = choose|i: int| 0 <= i < ps.len() && ps[i] == pv;
                assert(i < ps.len() - 1);
                assert(front[i] == pv);
                assert(front.contains(pv));
            }
            if fw.contains(pv) {
                let i = choose|i: int| 0 <= i < front.len() && front[i] == pv;
                assert(ps[i] == pv);
                assert(ps.contains(pv));
            }
        } else {
            assert(r == fw.push(ps.last()));
            if ps.contains(pv) && !removes(t, by_prefix, pv.0) {
                let i = choose|i: int| 0 <= i < ps.len() && ps[i] == pv;
                if i < ps.len() - 1 {
                    assert(front[i] == pv);
                    assert(front.contains(pv));
                    let j = choose|j: int| 0 <= j < fw.len() && fw[j] == pv;
                    assert(r[j] == pv);
                    assert(r.contains(pv));
                } else {
                    assert(r[fw.len() as int] == pv);
                    assert(r.contains(pv));
                }
            }
            if r.contains(pv) {
                let j = choose|j: int| 0 <= j < r.len() && r[j] == pv;
                if j < fw.len() {
                    assert(fw[j] == pv);
                    assert(fw.contains(pv));
                    let i = choose|i: int| 0 <= i < front.len() && front[i] == pv;
                    assert(ps[i] == pv);
                    assert(ps.contains(pv));
                } else {
                    assert(pv == ps.last());
                    assert(ps.contains(pv));
                }
            }
        }
    }
}

proof fn lemma_keys_without_distinct(s: Seq<Seq<u8>>, t: Seq<u8>, by_prefix: bool)
    requires
        distinct_keys(s),
    ensures
        distinct_keys(keys_without(s, t, by_prefix)),
    decreases s.len(),
{
    if s.len() > 0 {
        let front = s.drop_last();
        let fw = keys_without(front, t, by_prefix);
        assert forall|i: int, j: int| 0 <= i < j < front.len() implies front[i] != front[j] by {
            assert(s[i] == front[i] && s[j] == front[j]);
        }
        lemma_keys_without_distinct(front, t, by_prefix);
        if !removes(t, by_prefix, s.last()) {
            let r = fw.push(s.last());
            assert forall|i: int, j: int| 0 <= i < j < r.len() implies r[i] != r[j] by {
                if j == fw.len() {
                    assert(fw.contains(fw[i]));
                    lemma_keys_without_contains(front, t, by_prefix, fw[i]);
                    let m = choose|m: int| 0 <= m < front.len() && front[m] == fw[i];
                    assert(s[m] == fw[i] && s[s.len() - 1] == s.last());
                }
            }
        }
    }
}

proof fn lemma_keys_without_minimal(s: Seq<Seq<u8>>, t: Seq<u8>, by_prefix: bool)
    requires
        prefix_minimal(s),
    ensures
        prefix_minimal(keys_without(s, t, by_prefix)),
    decreases s.len(),
{
    if s.len() > 0 {
        let front = s.drop_last();
        let fw = keys_without(front, t, by_prefix);
        assert forall|i: int, j: int| 0 <= i < j < front.len() implies !front[j].is_prefix_of(
            front[i],
        ) by {
            assert(s[i] == front[i] && s[j] == front[j]);
        }
        lemma_keys_without_minimal(front, t, by_prefix);
        if !removes(t, by_prefix, s.last()) {
            let r = fw.push(s.last());
            assert forall|i: int, j: int| 0 <= i < j < r.len() implies !r[j].is_prefix_of(
                r[i],
            ) by {
                if j == fw.len() {
                    assert(fw.contains(fw[i]));
                    lemma_keys_without_contains(front, t, by_prefix, fw[i]);
                    let m = choose|m: int| 0 <= m < front.len() && front[m] == fw[i];
                    assert(s[m] == fw[i] && s[s.len() - 1] == s.last());
                }
            }
        }
    }
}

proof fn lemma_puts_without_distinct(ps: Seq<(Seq<u8>, Seq<u8>)>, t: Seq<u8>, by_prefix: bool)
    requires
        distinct_put_keys(ps),
    ensures
        distinct_put_keys(puts_without(ps, t, by_prefix)),
    decreases ps.len(),
{
    if ps.len() > 0 {
        let front = ps.drop_last();
        let fw = puts_without(front, t, by_prefix);
        assert forall|i: int, j: int| 0 <= i < j < front.len() implies front[i].0 != front[j].0 by {
            assert(ps[i] == front[i] && ps[j] == front[j]);
        }
        lemma_puts_without_distinct(front, t, by_prefix);
        if !removes(t, by_prefix, ps.last().0) {
            let r = fw.push(ps.last());
            assert forall|i: int, j: int| 0 <= i < j < r.len() implies r[i].0 != r[j].0 by {
                if j == fw.len() {
                    assert(fw.contains(fw[i]));
                    lemma_puts_without_contains(front, t, by_prefix, fw[i]);
                    let m = choose|m: int| 0 <= m < front.len() && front[m] == fw[i];
                    assert(ps[m] == fw[i] && ps[ps.len() - 1] == ps.last());
                }
            }
        }
    }
}

proof fn lemma_put_stage_without(
    ps: Seq<(Seq<u8>, Seq<u8>)>,
    t: Seq<u8>,
    by_prefix: bool,
    k: Seq<u8>,
    cur: Option<Seq<u8>>,
)
    requires
        !removes(t, by_prefix, k),
    ensures
        eval_put_stage(puts_without(ps, t, by_prefix), k, cur) == eval_put_stage(ps, k, cur),
    decreases ps.len(),
{
    if ps.len() > 0 {
        let front = ps.drop_last();
        let fw = puts_without(front, t, by_prefix);
        lemma_put_stage_without(front, t, by_prefix, k, cur);
        if removes(t, by_prefix, ps.last().0) {
            assert(ps.last().0 != k);
        } else {
            let r = fw.push(ps.last());
            assert(r.drop_last() =~= fw);
            assert(r.last() == ps.last());
        }
    }
}

proof fn lemma_put_stage_no_key(ps: Seq<(Seq<u8>, Seq<u8>)>, k: Seq<u8>, cur: Option<Seq<u8>>)
    requires
        forall|i: int| 0 <= i < ps.len() ==> (#[trigger] ps[i]).0 != k,
    ensures
        eval_put_stage(ps, k, cur) == cur,
    decreases ps.len(),
{
    if ps.len() > 0 {
        assert(ps[ps.len() - 1].0 != k);
        let front = ps.drop_last();
        assert forall|i: int| 0 <= i < front.len() implies (#[trigger] front[i]).0 != k by {
            assert(ps[i] == front[i]);
        }
        lemma_put_stage_no_key(front, k, cur);
    }
}

pub proof fn lemma_prefix_stage_ops(prefixes: Seq<Seq<u8>>, k: Seq<u8>, cur: Option<Seq<u8>>)
    ensures
        eval_ops(delete_prefix_ops(prefixes), k, cur) == eval_prefix_stage(prefixes, k, cur),
    decreases prefixes.len(),
{
    if prefixes.len() == 0 {
        assert(delete_prefix_ops(prefixes).len() == 0);
        if covered_by_any(prefixes, k) {
            let q = choose|q: Seq<u8>| prefixes.contains(q) && q.is_prefix_of(k);
            assert(false);
        }
    } else {
        let q0 = prefixes[0];
        let rest = prefixes.drop_first();
        let m = delete_prefix_ops(prefixes);
        assert(m[0] == OpView::DeletePrefix { key_prefix: q0 });
        assert(m.drop_first() =~= delete_prefix_ops(rest));
        let cur1 = eval_op(OpView::DeletePrefix { key_prefix: q0 }, k, cur);
        lemma_prefix_stage_ops(rest, k, cur1);
        assert(eval_ops(m, k, cur) == eval_ops(delete_prefix_ops(rest), k, cur1));
        if q0.is_prefix_of(k) {
            assert(prefixes.contains(q0));
            assert(covered_by_any(prefixes, k));
            assert(eval_prefix_stage(rest, k, None) == None::<Seq<u8>>);
        } else {
            assert(covered_by_any(prefixes, k) == covered_by_any(rest, k)) by {
                if covered_by_any(prefixes, k) {
                    let q = choose|q: Seq<u8>| prefixes.contains(q) && q.is_prefix_of(k);
                    let i = choose|i: int| 0 <= i < prefixes.len() && prefixes[i] == q;
                    assert(i != 0);
                    assert(rest[i - 1] == q);
                    assert(rest.contains(q));
                }
                if covered_by_any(rest, k) {
                    let q = choose|q: Seq<u8>| rest.contains(q) && q.is_prefix_of(k);
                    let i = choose|i: int| 0 <= i < rest.len() && rest[i] == q;
                    assert(prefixes[i + 1] == q);
                    assert(prefixes.contains(q));
                }
            }
        }
    }
}

pub proof fn lemma_delete_stage_ops(deletes: Seq<Seq<u8>>, k: Seq<u8>, cur: Option<Seq<u8>>)
    ensures
        eval_ops(delete_ops(deletes), k, cur) == eval_delete_stage(deletes, k, cur),
    decreases deletes.len(),
{
    if deletes.len() == 0 {
        assert(delete_ops(deletes).len() == 0);
    } else {
        let d0 = deletes[0];
        let rest = deletes.drop_first();
        let m = delete_ops(deletes);
        assert(m[0] == OpView::Delete { key: d0 });
        assert(m.drop_first() =~= delete_ops(rest));
        let cur1 = eval_op(OpView::Delete { key: d0 }, k, cur);
        lemma_delete_stage_ops(rest, k, cur1);
        assert(eval_ops(m, k, cur) == eval_ops(delete_ops(rest), k, cur1));
        if d0 == k {
            assert(deletes.contains(k));
            assert(eval_delete_stage(rest, k, None) == None::<Seq<u8>>);
        } else {
            assert(deletes.contains(k) == rest.contains(k)) by {
                if deletes.contains(k) {
                    let i = choose|i: int| 0 <= i < deletes.len() && deletes[i] == k;
                    assert(i != 0);
                    assert(rest[i - 1] == k);
                    assert(rest.contains(k));
                }
                if rest.contains(k) {
                    let i = choose|i: int| 0 <= i < rest.len() && rest[i] == k;
                    assert(deletes[i + 1] == k);
                    assert(deletes.contains(k));
                }
            }
        }
    }
}

pub proof fn lemma_put_stage_ops(puts: Seq<(Seq<u8>, Seq<u8>)>, k: Seq<u8>, cur: Option<Seq<u8>>)
    ensures
        eval_ops(put_ops(puts), k, cur) == eval_put_stage(puts, k, cur),
    decreases puts.len(),
{
    if puts.len() == 0 {
        assert(put_ops(puts).len() == 0);
    } else {
        let front = puts.drop_last();
        let last = puts.last();
        let lastop = OpView::Put { key: last.0, value: last.1 };
        assert(put_ops(puts) =~= put_ops(front).push(lastop));
        lemma_eval_ops_push(put_ops(front), lastop, k, cur);
        lemma_put_stage_ops(front, k, cur);
    }
}

/// The operations of a partitioned batch mean exactly its staged effect.
pub proof fn lemma_pending_ops_eval(
    prefixes: Seq<Seq<u8>>,
    deletes: Seq<Seq<u8>>,
    puts: Seq<(Seq<u8>, Seq<u8>)>,
    k: Seq<u8>,
    cur: Option<Seq<u8>>,
)
    ensures
        eval_ops(pending_ops(prefixes, deletes, puts), k, cur) == eval_state(
            prefixes,
            deletes,
            puts,
            k,
            cur,
        ),
{
    let a = delete_prefix_ops(prefixes);
    let b = delete_ops(deletes);
    let c = put_ops(puts);
    lemma_eval_ops_concat(a + b, c, k, cur);
    lemma_eval_ops_concat(a, b, k, cur);
    lemma_prefix_stage_ops(prefixes, k, cur);
    lemma_delete_stage_ops(deletes, k, eval_prefix_stage(prefixes, k, cur));
    lemma_put_stage_ops(
        puts,
        k,
        eval_delete_stage(deletes, k, eval_prefix_stage(prefixes, k, cur)),
    );
}

proof fn lemma_put_step(
    qs: Seq<Seq<u8>>,
    ds: Seq<Seq<u8>>,
    ps: Seq<(Seq<u8>, Seq<u8>)>,
    k0: Seq<u8>,
    v0: Seq<u8>,
    k: Seq<u8>,
    cur: Option<Seq<u8>>,
)
    ensures
        eval_state(
            qs,
            keys_without(ds, k0, false),
            puts_without(ps, k0, false).push((k0, v0)),
            k,
            cur,
        ) == eval_op(OpView::Put { key: k0, value: v0 }, k, eval_state(qs, ds, ps, k, cur)),
{
    let m1 = eval_prefix_stage(qs, k, cur);
    let ds1 = keys_without(ds, k0, false);
    let ps1 = puts_without(ps, k0, false).push((k0, v0));
    assert(ps1.last() == (k0, v0));
    assert(ps1.drop_last() =~= puts_without(ps, k0, false));
    if k == k0 {
        assert(eval_put_stage(ps1, k, eval_delete_stage(ds1, k, m1)) == Some(v0));
    } else {
        lemma_keys_without_contains(ds, k0, false, k);
        assert(eval_delete_stage(ds1, k, m1) == eval_delete_stage(ds, k, m1));
        lemma_put_stage_without(ps, k0, false, k, eval_delete_stage(ds, k, m1));
    }
}

proof fn lemma_delete_step(
    qs: Seq<Seq<u8>>,
    ds: Seq<Seq<u8>>,
    ps: Seq<(Seq<u8>, Seq<u8>)>,
    k0: Seq<u8>,
    k: Seq<u8>,
    cur: Option<Seq<u8>>,
)
    ensures
        eval_state(
            qs,
            keys_without(ds, k0, false).push(k0),
            puts_without(ps, k0, false),
            k,
            cur,
        ) == eval_op(OpView::Delete { key: k0 }, k, eval_state(qs, ds, ps, k, cur)),
{
    let m1 = eval_prefix_stage(qs, k, cur);
    let ds1 = keys_without(ds, k0, false).push(k0);
    let ps1 = puts_without(ps, k0, false);
    if k == k0 {
        assert(ds1[ds1.len() - 1] == k0);
        assert(ds1.contains(k));
        assert forall|i: int| 0 <= i < ps1.len() implies (#[trigger] ps1[i]).0 != k by {
            assert(ps1.contains(ps1[i]));
            lemma_puts_without_contains(ps, k0, false, ps1[i]);
        }
        lemma_put_stage_no_key(ps1, k, None);
    } else {
        assert(ds1.contains(k) == ds.contains(k)) by {
            lemma_keys_without_contains(ds, k0, false, k);
            if ds1.contains(k) {
                let i = choose|i: int| 0 <= i < ds1.len() && ds1[i] == k;
                if i < ds1.len() - 1 {
                    assert(keys_without(ds, k0, false)[i] == k);
                    assert(keys_without(ds, k0, false).contains(k));
                }
            }
            if ds.contains(k) {
                let j = choose|j: int|
                    0 <= j < keys_without(ds, k0, false).len() && keys_without(ds, k0, false)[j]
                        == k;
                assert(ds1[j] == k);
            }
        }
        lemma_put_stage_without(ps, k0, false, k, eval_delete_stage(ds, k, m1));
    }
}

proof fn lemma_prefix_step(
    qs: Seq<Seq<u8>>,
    ds: Seq<Seq<u8>>,
    ps: Seq<(Seq<u8>, Seq<u8>)>,
    p: Seq<u8>,
    k: Seq<u8>,
    cur: Option<Seq<u8>>,
)
    ensures
        eval_state(
            keys_without(qs, p, true).push(p),
            keys_without(ds, p, true),
            puts_without(ps, p, true),
            k,
            cur,
        ) == eval_op(OpView::DeletePrefix { key_prefix: p }, k, eval_state(qs, ds, ps, k, cur)),
{
    let qs1 = keys_without(qs, p, true).push(p);
    let ds1 = keys_without(ds, p, true);
    let ps1 = puts_without(ps, p, true);
    if p.is_prefix_of(k) {
        assert(qs1[qs1.len() - 1] == p);
        assert(qs1.contains(p));
        assert(covered_by_any(qs1, k));
        assert forall|i: int| 0 <= i < ps1.len() implies (#[trigger] ps1[i]).0 != k by {
            assert(ps1.contains(ps1[i]));
            lemma_puts_without_contains(ps, p, true, ps1[i]);
        }
        lemma_put_stage_no_key(ps1, k, None);
    } else {
        assert(covered_by_any(qs1, k) == covered_by_any(qs, k)) by {
            if covered_by_any(qs1, k) {
                let q = choose|q: Seq<u8>| qs1.contains(q) && q.is_prefix_of(k);
                assert(q != p);
                let i = choose|i: int| 0 <= i < qs1.len() && qs1[i] == q;
                assert(i < qs1.len() - 1);
                assert(keys_without(qs, p, true)[i] == q);
                assert(keys_without(qs, p, true).contains(q));
                lemma_keys_without_contains(qs, p, true, q);
                assert(qs.contains(q));
            }
            if covered_by_any(qs, k) {
                let q = choose|q: Seq<u8>| qs.contains(q) && q.is_prefix_of(k);
                if p.is_prefix_of(q) {
                    lemma_prefix_transitive(p, q, k);
                    assert(false);
                }
                lemma_keys_without_contains(qs, p, true, q);
                assert(keys_without(qs, p, true).contains(q));
                let j = choose|j: int|
                    0 <= j < keys_without(qs, p, true).len() && keys_without(qs, p, true)[j] == q;
                assert(qs1[j] == q);
                assert(qs1.contains(q));
            }
        }
        assert(ds1.contains(k) == ds.contains(k)) by {
            lemma_keys_without_contains(ds, p, true, k);
        }
        lemma_put_stage_without(ps, p, true, k, eval_delete_stage(ds, k, eval_prefix_stage(qs, k, cur)));
    }
}

fn retain_keys(v: Vec<Vec<u8>>, t: &Vec<u8>, by_prefix: bool) -> (r: Vec<Vec<u8>>)
    ensures
        keys_view(r@) == keys_without(keys_view(v@), t@, by_prefix),
{
    let mut r: Vec<Vec<u8>> = Vec::new();
    for i in 0..v.len()
        invariant
            keys_view(r@) == keys_without(keys_view(v@.take(i as int)), t@, by_prefix),
    {
        let hit = if by_prefix {
            bytes_has_prefix(&v[i], t)
        } else {
            bytes_eq(&v[i], t)
        };
        proof {
            assert(keys_view(v@.take(i + 1 as int)) =~= keys_view(v@.take(i as int)).push(
                v@[i as int]@,
            ));
            lemma_keys_without_push(keys_view(v@.take(i as int)), v@[i as int]@, t@, by_prefix);
        }
        if !hit {
            let ghost pre = keys_view(r@);
            r.push(clone_bytes(&v[i]));
            proof {
                assert(keys_view(r@) =~= pre.push(v@[i as int]@));
            }
        }
    }
    proof {
        assert(v@.take(v@.len() as int) =~= v@);
    }
    r
}

fn retain_puts(v: Vec<(Vec<u8>, Vec<u8>)>, t: &Vec<u8>, by_prefix: bool) -> (r: Vec<
    (Vec<u8>, Vec<u8>),
>)
    ensures
        pairs_view(r@) == puts_without(pairs_view(v@), t@, by_prefix),
{
    let mut r: Vec<(Vec<u8>, Vec<u8>)> = Vec::new();
    for i in 0..v.len()
        invariant
            pairs_view(r@) == puts_without(pairs_view(v@.take(i as int)), t@, by_prefix),
    {
        let hit = if by_prefix {
            bytes_has_prefix(&v[i].0, t)
        } else {
            bytes_eq(&v[i].0, t)
        };
        proof {
            assert(pairs_view(v@.take(i + 1 as int)) =~= pairs_view(v@.take(i as int)).push(
                (v@[i as int].0@, v@[i as int].1@),
            ));
            lemma_puts_without_push(
                pairs_view(v@.take(i as int)),
                (v@[i as int].0@, v@[i as int].1@),
                t@,
                by_prefix,
            );
        }
        if !hit {
            let ghost pre = pairs_view(r@);
            r.push((clone_bytes(&v[i].0), clone_bytes(&v[i].1)));
            proof {
                assert(pairs_view(r@) =~= pre.push((v@[i as int].0@, v@[i as int].1@)));
            }
        }
    }
    proof {
        assert(v@.take(v@.len() as int) =~= v@);
    }
    r
}

impl Batch {
    /// Collapse a list of operations into the prefix deletes, single-key
    /// deletes and puts that survive simplification, with the same effect
    /// on every key of every store.
    pub(crate) fn reduce_ops(ops: &Vec<WriteOperation>) -> (r: (
        Vec<Vec<u8>>,
        Vec<Vec<u8>>,
        Vec<(Vec<u8>, Vec<u8>)>,
    ))
        ensures
            forall|k: Seq<u8>, cur: Option<Seq<u8>>|
                #[trigger] eval_state(
                    keys_view(r.0@),
                    keys_view(r.1@),
                    pairs_view(r.2@),
                    k,
                    cur,
                ) == eval_ops(ops_view(ops@), k, cur),
            distinct_keys(keys_view(r.1@)),
            distinct_put_keys(pairs_view(r.2@)),
            delete_put_disjoint(keys_view(r.1@), pairs_view(r.2@)),
            prefix_minimal(keys_view(r.0@)),
    {
        let mut prefixes: Vec<Vec<u8>> = Vec::new();
        let mut deletes: Vec<Vec<u8>> = Vec::new();
        let mut puts: Vec<(Vec<u8>, Vec<u8>)> = Vec::new();
        let n = ops.len();
        for i in 0..n
            invariant
                n == ops.len(),
                forall|k: Seq<u8>, cur: Option<Seq<u8>>|
                    #[trigger] eval_state(
                        keys_view(prefixes@),
                        keys_view(deletes@),
                        pairs_view(puts@),
                        k,
                        cur,
                    ) == eval_ops(ops_view(ops@).take(i as int), k, cur),
                distinct_keys(keys_view(deletes@)),
                distinct_put_keys(pairs_view(puts@)),
                delete_put_disjoint(keys_view(deletes@), pairs_view(puts@)),
                prefix_minimal(keys_view(prefixes@)),
        {
            let ghost qs0 = keys_view(prefixes@);
            let ghost ds0 = keys_view(deletes@);
            let ghost ps0 = pairs_view(puts@);
            let ghost opv = ops_view(ops@)[i as int];
            proof {
                assert(ops_view(ops@).take(i + 1 as int) =~= ops_view(ops@).take(i as int).push(opv));
            }
            match &ops[i] {
                WriteOperation::Put { key, value } => {
                    deletes = retain_keys(deletes, key, false);
                    puts = retain_puts(puts, key, false);
                    puts.push((clone_bytes(key), clone_bytes(value)));
                    proof {
                        assert(opv == OpView::Put { key: key@, value: value@ });
                        let ds1 = keys_without(ds0, key@, false);
                        let pw = puts_without(ps0, key@, false);
                        let ps1 = pw.push((key@, value@));
                        assert(keys_view(deletes@) == ds1);
                        assert(pairs_view(puts@) =~= ps1);
                        assert forall|k: Seq<u8>, cur: Option<Seq<u8>>|
                            #[trigger] eval_state(
                                keys_view(prefixes@),
                                keys_view(deletes@),
                                pairs_view(puts@),
                                k,
                                cur,
                            ) == eval_ops(ops_view(ops@).take(i + 1 as int), k, cur) by {
                            lemma_put_step(qs0, ds0, ps0, key@, value@, k, cur);
                            lemma_eval_ops_push(ops_view(ops@).take(i as int), opv, k, cur);
                            assert(eval_state(qs0, ds0, ps0, k, cur) == eval_ops(
                                ops_view(ops@).take(i as int),
                                k,
                                cur,
                            ));
                        }
                        lemma_keys_without_distinct(ds0, key@, false);
                        lemma_puts_without_distinct(ps0, key@, false);
                        assert forall|i2: int, j2: int| 0 <= i2 < j2 < ps1.len() implies ps1[i2].0
                            != ps1[j2].0 by {
                            if j2 == pw.len() {
                                assert(pw.contains(pw[i2]));
                                lemma_puts_without_contains(ps0, key@, false, pw[i2]);
                            }
                        }
                        assert forall|i2: int| 0 <= i2 < ps1.len() implies !ds1.contains(
                            #[trigger] ps1[i2].0,
                        ) by {
                            lemma_keys_without_contains(ds0, key@, false, ps1[i2].0);
                            if i2 < pw.len() {
                                assert(pw.contains(pw[i2]));
                                lemma_puts_without_contains(ps0, key@, false, pw[i2]);
                                let m = choose|m: int| 0 <= m < ps0.len() && ps0[m] == pw[i2];
                                assert(!ds0.contains(ps0[m].0));
                            }
                        }
                    }
                },
                WriteOperation::Delete { key } => {
                    deletes = retain_keys(deletes, key, false);
                    puts = retain_puts(puts, key, false);
                    deletes.push(clone_bytes(key));
                    proof {
                        assert(opv == OpView::Delete { key: key@ });
                        let dw = keys_without(ds0, key@, false);
                        let ds1 = dw.push(key@);
                        let ps1 = puts_without(ps0, key@, false);
                        assert(keys_view(deletes@) =~= ds1);
                        assert(pairs_view(puts@) == ps1);
                        assert forall|k: Seq<u8>, cur: Option<Seq<u8>>|
                            #[trigger] eval_state(
                                keys_view(prefixes@),
                                keys_view(deletes@),
                                pairs_view(puts@),
                                k,
                                cur,
                            ) == eval_ops(ops_view(ops@).take(i + 1 as int), k, cur) by {
                            lemma_delete_step(qs0, ds0, ps0, key@, k, cur);
                            lemma_eval_ops_push(ops_view(ops@).take(i as int), opv, k, cur);
                            assert(eval_state(qs0, ds0, ps0, k, cur) == eval_ops(
                                ops_view(ops@).take(i as int),
                                k,
                                cur,
                            ));
                        }
                        lemma_keys_without_distinct(ds0, key@, false);
                        lemma_puts_without_distinct(ps0, key@, false);
                        assert forall|i2: int, j2: int| 0 <= i2 < j2 < ds1.len() implies ds1[i2]
                            != ds1[j2] by {
                            if j2 == dw.len() {
                                assert(dw.contains(dw[i2]));
                                lemma_keys_without_contains(ds0, key@, false, dw[i2]);
                            }
                        }
                        assert forall|i2: int| 0 <= i2 < ps1.len() implies !ds1.contains(
                            #[trigger] ps1[i2].0,
                        ) by {
                            assert(ps1.contains(ps1[i2]));
                            lemma_puts_without_contains(ps0, key@, false, ps1[i2]);
                            let m = choose|m: int| 0 <= m < ps0.len() && ps0[m] == ps1[i2];
                            assert(!ds0.contains(ps0[m].0));
                            lemma_keys_without_contains(ds0, key@, false, ps1[i2].0);
                            if ds1.contains(ps1[i2].0) {
                                let w = choose|w: int| 0 <= w < ds1.len() && ds1[w] == ps1[i2].0;
                                if w < dw.len() {
                                    assert(dw[w] == ps1[i2].0);
                                    assert(dw.contains(ps1[i2].0));
                                }
                            }
                        }
                    }
                },
                WriteOperation::DeletePrefix { key_prefix } => {
                    prefixes = retain_keys(prefixes, key_prefix, true);
                    deletes = retain_keys(deletes, key_prefix, true);
                    puts = retain_puts(puts, key_prefix, true);
                    prefixes.push(clone_bytes(key_prefix));
                    proof {
                        assert(opv == OpView::DeletePrefix { key_prefix: key_prefix@ });
                        let qs1 = keys_without(qs0, key_prefix@, true).push(key_prefix@);
                        let ds1 = keys_without(ds0, key_prefix@, true);
                        let ps1 = puts_without(ps0, key_prefix@, true);
                        assert(keys_view(prefixes@) =~= qs1);
                        assert(keys_view(deletes@) == ds1);
                        assert(pairs_view(puts@) == ps1);
                        assert forall|k: Seq<u8>, cur: Option<Seq<u8>>|
                            #[trigger] eval_state(
                                keys_view(prefixes@),
                                keys_view(deletes@),
                                pairs_view(puts@),
                                k,
                                cur,
                            ) == eval_ops(ops_view(ops@).take(i + 1 as int), k, cur) by {
                            lemma_prefix_step(qs0, ds0, ps0, key_prefix@, k, cur);
                            lemma_eval_ops_push(ops_view(ops@).take(i as int), opv, k, cur);
                            assert(eval_state(qs0, ds0, ps0, k, cur) == eval_ops(
                                ops_view(ops@).take(i as int),
                                k,
                                cur,
                            ));
                        }
                        lemma_keys_without_distinct(ds0, key_prefix@, true);
                        lemma_puts_without_distinct(ps0, key_prefix@, true);
                        lemma_keys_without_minimal(qs0, key_prefix@, true);
                        let qw = keys_without(qs0, key_prefix@, true);
                        assert forall|i2: int, j2: int| 0 <= i2 < j2 < qs1.len() implies !qs1[j2].is_prefix_of(
                            qs1[i2],
                        ) by {
                            if j2 == qw.len() {
                                assert(qw.contains(qw[i2]));
                                lemma_keys_without_contains(qs0, key_prefix@, true, qw[i2]);
                            }
                        }
                        assert forall|i2: int| 0 <= i2 < ps1.len() implies !ds1.contains(
                            #[trigger] ps1[i2].0,
                        ) by {
                            assert(ps1.contains(ps1[i2]));
                            lemma_puts_without_contains(ps0, key_prefix@, true, ps1[i2]);
                            let m = choose|m: int| 0 <= m < ps0.len() && ps0[m] == ps1[i2];
                            assert(!ds0.contains(ps0[m].0));
                            lemma_keys_without_contains(ds0, key_prefix@, true, ps1[i2].0);
                        }
                    }
                },
            }
        }
        proof {
            assert(ops_view(ops@).take(n as int) =~= ops_view(ops@));
        }
        (prefixes, deletes, puts)
    }

    /// Simplify the batch: collapse conflicting and redundant operations on
    /// the same key — last write wins, a later delete removes an earlier
    /// put, a later prefix delete removes every operation it covers — into
    /// a batch in simplified form with the same effect on every key of
    /// every store.
    pub fn simplify(self) -> (r: Batch)
        ensures
            forall|k: Seq<u8>, cur: Option<Seq<u8>>| #[trigger] eval_ops(r@, k, cur) == eval_ops(
                self@,
                k,
                cur,
            ),
            simplified(r@),
    {
        let (prefixes, deletes, puts) = Batch::reduce_ops(&self.operations);
        let ghost qsv = keys_view(prefixes@);
        let ghost dsv = keys_view(deletes@);
        let ghost psv = pairs_view(puts@);
        let mut operations: Vec<WriteOperation> = Vec::new();
        for j in 0..prefixes.len()
            invariant
                ops_view(operations@) == delete_prefix_ops(keys_view(prefixes@).take(j as int)),
        {
            let ghost before = ops_view(operations@);
            operations.push(
                WriteOperation::DeletePrefix { key_prefix: clone_bytes(&prefixes[j]) },
            );
            proof {
                let opv = OpView::DeletePrefix { key_prefix: keys_view(prefixes@)[j as int] };
                assert(ops_view(operations@) =~= before.push(opv));
                assert(delete_prefix_ops(keys_view(prefixes@).take(j + 1 as int))
                    =~= delete_prefix_ops(keys_view(prefixes@).take(j as int)).push(opv));
            }
        }
        proof {
            assert(keys_view(prefixes@).take(keys_view(prefixes@).len() as int) =~= qsv);
        }
        for j in 0..deletes.len()
            invariant
                ops_view(operations@) == delete_prefix_ops(qsv) + delete_ops(
                    keys_view(deletes@).take(j as int),
                ),
                keys_view(prefixes@) == qsv,
        {
            let ghost before = ops_view(operations@);
            operations.push(WriteOperation::Delete { key: clone_bytes(&deletes[j]) });
            proof {
                let opv = OpView::Delete { key: keys_view(deletes@)[j as int] };
                assert(ops_view(operations@) =~= before.push(opv));
                assert(delete_ops(keys_view(deletes@).take(j + 1 as int)) =~= delete_ops(
                    keys_view(deletes@).take(j as int),
                ).push(opv));
                assert(delete_prefix_ops(qsv) + delete_ops(keys_view(deletes@).take(j as int)).push(
                    opv,
                ) =~= (delete_prefix_ops(qsv) + delete_ops(keys_view(deletes@).take(j as int))).push(
                    opv,
                ));
            }
        }
        proof {
            assert(keys_view(deletes@).take(keys_view(deletes@).len() as int) =~= dsv);
        }
        for j in 0..puts.len()
            invariant
                ops_view(operations@) == delete_prefix_ops(qsv) + delete_ops(dsv) + put_ops(
                    pairs_view(puts@).take(j as int),
                ),
                keys_view(deletes@) == dsv,
        {
            let ghost before = ops_view(operations@);
            operations.push(
                WriteOperation::Put {
                    key: clone_bytes(&puts[j].0),
                    value: clone_bytes(&puts[j].1),
                },
            );
            proof {
                let opv = OpView::Put {
                    key: pairs_view(puts@)[j as int].0,
                    value: pairs_view(puts@)[j as int].1,
                };
                assert(ops_view(operations@) =~= before.push(opv));
                assert(put_ops(pairs_view(puts@).take(j + 1 as int)) =~= put_ops(
                    pairs_view(puts@).take(j as int),
                ).push(opv));
                assert(delete_prefix_ops(qsv) + delete_ops(dsv) + put_ops(
                    pairs_view(puts@).take(j as int),
                ).push(opv) =~= (delete_prefix_ops(qsv) + delete_ops(dsv) + put_ops(
                    pairs_view(puts@).take(j as int),
                )).push(opv));
            }
        }
        proof {
            assert(pairs_view(puts@).take(pairs_view(puts@).len() as int) =~= psv);
        }
        let result = Batch { operations };
        proof {
            assert(result@ == pending_ops(qsv, dsv, psv));
            assert forall|k: Seq<u8>, cur: Option<Seq<u8>>| #[trigger] eval_ops(result@, k, cur)
                == eval_ops(self@, k, cur) by {
                lemma_pending_ops_eval(qsv, dsv, psv, k, cur);
                assert(eval_state(qsv, dsv, psv, k, cur) == eval_ops(
                    ops_view(self.operations@),
                    k,
                    cur,
                ));
            }
            let a = delete_prefix_ops(qsv).len() as int;
            let b = delete_ops(dsv).len() as int;
            let c = put_ops(psv).len() as int;
            let ops = result@;
            assert forall|m: int| 0 <= m < a implies ops[m] == (OpView::DeletePrefix {
                key_prefix: qsv[m],
            }) by {
                assert(ops[m] == delete_prefix_ops(qsv)[m]);
            }
            assert forall|m: int| a <= m < a + b implies ops[m] == (OpView::Delete {
                key: dsv[m - a],
            }) by {
                assert(ops[m] == delete_ops(dsv)[m - a]);
            }
            assert forall|m: int| a + b <= m < a + b + c implies ops[m] == (OpView::Put {
                key: psv[m - a - b].0,
                value: psv[m - a - b].1,
            }) by {
                assert(ops[m] == put_ops(psv)[m - a - b]);
            }
            assert forall|i2: int, j2: int|
                0 <= i2 < j2 < ops.len() && is_key_op(ops[i2]) && is_key_op(ops[j2]) implies
                op_key(ops[i2]) != op_key(ops[j2]) by {
                if a <= i2 < a + b && a + b <= j2 < a + b + c {
                    if op_key(ops[i2]) == op_key(ops[j2]) {
                        assert(dsv[i2 - a] == psv[j2 - a - b].0);
                        assert(dsv.contains(psv[j2 - a - b].0));
                    }
                }
            }
            assert forall|i2: int, j2: int|
                0 <= i2 < j2 < ops.len() && !is_key_op(ops[i2]) && !is_key_op(ops[j2]) implies
                !op_key(ops[j2]).is_prefix_of(op_key(ops[i2])) by {
                assert(i2 < a && j2 < a);
                assert(op_key(ops[i2]) == qsv[i2] && op_key(ops[j2]) == qsv[j2]);
            }
        }
        result
    }
}

} // verus!
