//! Batched writer: partitions a batch into surviving prefix deletes,
//! single-key deletes and puts, expands each prefix delete into concrete
//! key deletes using the keys scanned under it, and splits the resulting
//! lists into chunks of at most the backing service's per-request item
//! limit. Chunks are submitted sequentially, deletes before puts; a failed
//! submission may leave a prefix of the chunks applied, and callers recover
//! by resubmitting the same batch.

use vstd::prelude::*;

use crate::batch::{
    delete_ops, eval_delete_stage, eval_ops, eval_prefix_stage, eval_state, keys_view,
    lemma_delete_stage_ops, lemma_eval_ops_concat, lemma_pending_ops_eval, lemma_put_stage_ops,
    pairs_view, pending_ops, put_ops, Batch, OpView,
};
use crate::bytes::{bytes_concat, lemma_prefix_split};

verus! {

/// The backing service's hard limit on items in one batch-write request.
pub const MAX_BATCH_WRITE_ITEMS: usize = 25;

/// The entry a store holds under a key.
pub open spec fn store_at(m: Map<Seq<u8>, Seq<u8>>, k: Seq<u8>) -> Option<Seq<u8>> {
    if m.dom().contains(k) {
        Some(m[k])
    } else {
        None
    }
}

/// The views of a list of key lists.
pub open spec fn key_lists_view(cs: Seq<Vec<Vec<u8>>>) -> Seq<Seq<Seq<u8>>> {
    cs.map_values(|c: Vec<Vec<u8>>| keys_view(c@))
}

/// The views of a list of put-pair lists.
pub open spec fn put_lists_view(cs: Seq<Vec<(Vec<u8>, Vec<u8>)>>) -> Seq<
    Seq<(Seq<u8>, Seq<u8>)>,
> {
    cs.map_values(|c: Vec<(Vec<u8>, Vec<u8>)>| pairs_view(c@))
}

/// The keys of a list of key chunks, in order.
pub open spec fn flatten_keys(cs: Seq<Seq<Seq<u8>>>) -> Seq<Seq<u8>>
    decreases cs.len(),
{
    if cs.len() == 0 {
        Seq::empty()
    } else {
        cs[0] + flatten_keys(cs.drop_first())
    }
}

/// The pairs of a list of put chunks, in order.
pub open spec fn flatten_puts(cs: Seq<Seq<(Seq<u8>, Seq<u8>)>>) -> Seq<(Seq<u8>, Seq<u8>)>
    decreases cs.len(),
{
    if cs.len() == 0 {
        Seq::empty()
    } else {
        cs[0] + flatten_puts(cs.drop_first())
    }
}

proof fn lemma_flatten_keys_push(cs: Seq<Seq<Seq<u8>>>, c: Seq<Seq<u8>>)
    ensures
        flatten_keys(cs.push(c)) == flatten_keys(cs) + c,
    decreases cs.len(),
{
    if cs.len() == 0 {
        assert(cs.push(c).drop_first() =~= Seq::<Seq<Seq<u8>>>::empty());
        assert(cs.push(c)[0] == c);
        assert(c + flatten_keys(Seq::empty()) =~= c);
        assert(flatten_keys(cs) + c =~= c);
    } else {
        assert(cs.push(c).drop_first() =~= cs.drop_first().push(c));
        assert(cs.push(c)[0] == cs[0]);
        lemma_flatten_keys_push(cs.drop_first(), c);
        assert(cs[0] + (flatten_keys(cs.drop_first()) + c) =~= (cs[0] + flatten_keys(
            cs.drop_first(),
        )) + c);
    }
}

proof fn lemma_flatten_puts_push(cs: Seq<Seq<(Seq<u8>, Seq<u8>)>>, c: Seq<(Seq<u8>, Seq<u8>)>)
    ensures
        flatten_puts(cs.push(c)) == flatten_puts(cs) + c,
    decreases cs.len(),
{
    if cs.len() == 0 {
        assert(cs.push(c).drop_first() =~= Seq::<Seq<(Seq<u8>, Seq<u8>)>>::empty());
        assert(cs.push(c)[0] == c);
        assert(c + flatten_puts(Seq::empty()) =~= c);
        assert(flatten_puts(cs) + c =~= c);
    } else {
        assert(cs.push(c).drop_first() =~= cs.drop_first().push(c));
        assert(cs.push(c)[0] == cs[0]);
        lemma_flatten_puts_push(cs.drop_first(), c);
        assert(cs[0] + (flatten_puts(cs.drop_first()) + c) =~= (cs[0] + flatten_puts(
            cs.drop_first(),
        )) + c);
    }
}

/// The full keys under one prefix: the prefix concatenated with each
/// scanned suffix.
pub open spec fn full_keys(prefix: Seq<u8>, suffixes: Seq<Seq<u8>>) -> Seq<Seq<u8>> {
    suffixes.map_values(|s: Seq<u8>| prefix + s)
}

/// The full keys of all prefix expansions, in order.
pub open spec fn expanded_keys(prefixes: Seq<Seq<u8>>, exps: Seq<Seq<Seq<u8>>>) -> Seq<Seq<u8>>
    decreases exps.len(),
{
    if exps.len() == 0 || prefixes.len() == 0 {
        Seq::empty()
    } else {
        full_keys(prefixes[0], exps[0]) + expanded_keys(prefixes.drop_first(), exps.drop_first())
    }
}

proof fn lemma_expanded_push(
    prefixes: Seq<Seq<u8>>,
    exps: Seq<Seq<Seq<u8>>>,
    p: Seq<u8>,
    e: Seq<Seq<u8>>,
)
    requires
        prefixes.len() == exps.len(),
    ensures
        expanded_keys(prefixes.push(p), exps.push(e)) == expanded_keys(prefixes, exps) + full_keys(
            p,
            e,
        ),
    decreases exps.len(),
{
    if exps.len() == 0 {
        assert(prefixes.push(p)[0] == p);
        assert(exps.push(e)[0] == e);
        assert(prefixes.push(p).drop_first() =~= Seq::<Seq<u8>>::empty());
        assert(exps.push(e).drop_first() =~= Seq::<Seq<Seq<u8>>>::empty());
        assert(full_keys(p, e) + expanded_keys(Seq::empty(), Seq::empty()) =~= full_keys(p, e));
        assert(expanded_keys(prefixes, exps) + full_keys(p, e) =~= full_keys(p, e));
    } else {
        assert(prefixes.push(p)[0] == prefixes[0]);
        assert(exps.push(e)[0] == exps[0]);
        assert(prefixes.push(p).drop_first() =~= prefixes.drop_first().push(p));
        assert(exps.push(e).drop_first() =~= exps.drop_first().push(e));
        lemma_expanded_push(prefixes.drop_first(), exps.drop_first(), p, e);
        assert(full_keys(prefixes[0], exps[0]) + (expanded_keys(
            prefixes.drop_first(),
            exps.drop_first(),
        ) + full_keys(p, e)) =~= (full_keys(prefixes[0], exps[0]) + expanded_keys(
            prefixes.drop_first(),
            exps.drop_first(),
        )) + full_keys(p, e));
    }
}

/// A full key is among the expanded keys exactly when some expansion lists
/// its suffix under the matching prefix.
proof fn lemma_expanded_contains(prefixes: Seq<Seq<u8>>, exps: Seq<Seq<Seq<u8>>>, f: Seq<u8>)
    requires
        prefixes.len() == exps.len(),
    ensures
        expanded_keys(prefixes, exps).contains(f) <==> exists|i: int, s: Seq<u8>|
            0 <= i < exps.len() && #[trigger] exps[i].contains(s) && f == prefixes[i] + s,
    decreases exps.len(),
{
    if exps.len() == 0 {
    } else {
        let head = full_keys(prefixes[0], exps[0]);
        let rest = expanded_keys(prefixes.drop_first(), exps.drop_first());
        lemma_expanded_contains(prefixes.drop_first(), exps.drop_first(), f);
        if expanded_keys(prefixes, exps).contains(f) {
            let w = choose|w: int|
                0 <= w < expanded_keys(prefixes, exps).len() && expanded_keys(prefixes, exps)[w]
                    == f;
            if w < head.len() {
                assert(head[w] == f);
                let s = exps[0][w];
                assert(exps[0].contains(s));
                assert(f == prefixes[0] + s);
            } else {
                assert(rest[w - head.len()] == f);
                assert(rest.contains(f));
                let (i, s) = choose|i: int, s: Seq<u8>|
                    0 <= i < exps.drop_first().len() && #[trigger] exps.drop_first()[i].contains(s) && f == prefixes.drop_first()[i] + s;
                assert(exps[i + 1].contains(s) && f == prefixes[i + 1] + s);
            }
        }
        if exists|i: int, s: Seq<u8>|
            0 <= i < exps.len() && #[trigger] exps[i].contains(s) && f == prefixes[i] + s {
            let (i, s) = choose|i: int, s: Seq<u8>|
                0 <= i < exps.len() && #[trigger] exps[i].contains(s) && f == prefixes[i] + s;
            if i == 0 {
                let j = choose|j: int| 0 <= j < exps[0].len() && exps[0][j] == s;
                assert(head[j] == f);
                assert(expanded_keys(prefixes, exps)[j] == f);
                assert(expanded_keys(prefixes, exps).contains(f));
            } else {
                assert(exps.drop_first()[i - 1].contains(s) && f == prefixes.drop_first()[i - 1]
                    + s);
                assert(rest.contains(f));
                let j = choose|j: int| 0 <= j < rest.len() && rest[j] == f;
                assert(expanded_keys(prefixes, exps)[head.len() + j] == f);
                assert(expanded_keys(prefixes, exps).contains(f));
            }
        }
    }
}

/// A write batch partitioned for execution: the prefix deletes whose
/// covered keys must still be scanned, the single-key deletes, and the
/// puts.
pub struct PendingBatch {
    /// The prefixes whose covered keys are scanned and deleted.
    pub prefixes: Vec<Vec<u8>>,
    /// The full keys to delete.
    pub deletes: Vec<Vec<u8>>,
    /// The full key/value pairs to put.
    pub puts: Vec<(Vec<u8>, Vec<u8>)>,
}

impl PendingBatch {
    /// The operations this partition stands for: its prefix deletes, then
    /// its key deletes, then its puts.
    pub open spec fn ops(self) -> Seq<OpView> {
        pending_ops(keys_view(self.prefixes@), keys_view(self.deletes@), pairs_view(self.puts@))
    }
}

/// Simplify a batch and partition the surviving operations for execution.
/// The partition has the same effect as the batch on every key of every
/// store.
pub fn prepare_batch(batch: Batch) -> (r: PendingBatch)
    ensures
        forall|k: Seq<u8>, cur: Option<Seq<u8>>| #[trigger] eval_ops(r.ops(), k, cur) == eval_ops(
            batch@,
            k,
            cur,
        ),
{
    let reduced = Batch::reduce_ops(&batch.operations);
    let ghost qsv = keys_view(reduced.0@);
    let ghost dsv = keys_view(reduced.1@);
    let ghost psv = pairs_view(reduced.2@);
    let r = PendingBatch { prefixes: reduced.0, deletes: reduced.1, puts: reduced.2 };
    proof {
        assert forall|k: Seq<u8>, cur: Option<Seq<u8>>| #[trigger] eval_ops(r.ops(), k, cur)
            == eval_ops(batch@, k, cur) by {
            lemma_pending_ops_eval(qsv, dsv, psv, k, cur);
            assert(eval_state(qsv, dsv, psv, k, cur) == eval_ops(
                crate::batch::ops_view(batch.operations@),
                k,
                cur,
            ));
        }
    }
    r
}

/// A write plan ready for submission: delete chunks and put chunks, each
/// within the backing service's per-request item limit. Each chunk is one
/// network call; delete chunks are sent first, then put chunks.
pub struct WritePlan {
    /// The chunks of keys to delete, sent in order.
    pub delete_chunks: Vec<Vec<Vec<u8>>>,
    /// The chunks of key/value pairs to put, sent in order.
    pub put_chunks: Vec<Vec<(Vec<u8>, Vec<u8>)>>,
}

impl WritePlan {
    /// Every key the plan deletes, in submission order.
    pub open spec fn all_deletes(self) -> Seq<Seq<u8>> {
        flatten_keys(key_lists_view(self.delete_chunks@))
    }

    /// Every pair the plan puts, in submission order.
    pub open spec fn all_puts(self) -> Seq<(Seq<u8>, Seq<u8>)> {
        flatten_puts(put_lists_view(self.put_chunks@))
    }

    /// The operations the plan applies, in submission order: every delete,
    /// then every put.
    pub open spec fn ops(self) -> Seq<OpView> {
        delete_ops(self.all_deletes()) + put_ops(self.all_puts())
    }

    /// Every chunk is nonempty and within the per-request item limit.
    pub open spec fn chunks_bounded(self) -> bool {
        &&& (forall|i: int|
            0 <= i < self.delete_chunks@.len() ==> 1 <= (#[trigger] self.delete_chunks@[i])@.len()
                <= MAX_BATCH_WRITE_ITEMS)
        &&& (forall|i: int|
            0 <= i < self.put_chunks@.len() ==> 1 <= (#[trigger] self.put_chunks@[i])@.len()
                <= MAX_BATCH_WRITE_ITEMS)
    }
}

fn chunk_keys(list: Vec<Vec<u8>>) -> (r: Vec<Vec<Vec<u8>>>)
    ensures
        flatten_keys(key_lists_view(r@)) == keys_view(list@),
        forall|i: int|
            0 <= i < r@.len() ==> 1 <= (#[trigger] r@[i])@.len() <= MAX_BATCH_WRITE_ITEMS,
{
    let ghost orig = keys_view(list@);
    let mut rest = list;
    let mut r: Vec<Vec<Vec<u8>>> = Vec::new();
    while rest.len() > MAX_BATCH_WRITE_ITEMS
        invariant
            flatten_keys(key_lists_view(r@)) + keys_view(rest@) == orig,
            forall|i: int|
                0 <= i < r@.len() ==> 1 <= (#[trigger] r@[i])@.len() <= MAX_BATCH_WRITE_ITEMS,
        decreases rest@.len(),
    {
        let ghost prev = keys_view(rest@);
        let tail = rest.split_off(MAX_BATCH_WRITE_ITEMS);
        let ghost chunk_v = keys_view(rest@);
        let ghost tail_v = keys_view(tail@);
        let ghost before = key_lists_view(r@);
        proof {
            assert(chunk_v + tail_v =~= prev);
        }
        r.push(rest);
        rest = tail;
        proof {
            assert(key_lists_view(r@) =~= before.push(chunk_v));
            lemma_flatten_keys_push(before, chunk_v);
            assert((flatten_keys(before) + chunk_v) + tail_v =~= flatten_keys(before) + (chunk_v
                + tail_v));
        }
    }
    if rest.len() > 0 {
        let ghost chunk_v = keys_view(rest@);
        let ghost before = key_lists_view(r@);
        r.push(rest);
        proof {
            assert(key_lists_view(r@) =~= before.push(chunk_v));
            lemma_flatten_keys_push(before, chunk_v);
            assert(flatten_keys(before) + chunk_v == orig);
        }
    } else {
        proof {
            assert(keys_view(rest@) =~= Seq::<Seq<u8>>::empty());
            assert(flatten_keys(key_lists_view(r@)) + Seq::<Seq<u8>>::empty() =~= flatten_keys(
                key_lists_view(r@),
            ));
        }
    }
    r
}

fn chunk_puts(list: Vec<(Vec<u8>, Vec<u8>)>) -> (r: Vec<Vec<(Vec<u8>, Vec<u8>)>>)
    ensures
        flatten_puts(put_lists_view(r@)) == pairs_view(list@),
        forall|i: int|
            0 <= i < r@.len() ==> 1 <= (#[trigger] r@[i])@.len() <= MAX_BATCH_WRITE_ITEMS,
{
    let ghost orig = pairs_view(list@);
    let mut rest = list;
    let mut r: Vec<Vec<(Vec<u8>, Vec<u8>)>> = Vec::new();
    while rest.len() > MAX_BATCH_WRITE_ITEMS
        invariant
            flatten_puts(put_lists_view(r@)) + pairs_view(rest@) == orig,
            forall|i: int|
                0 <= i < r@.len() ==> 1 <= (#[trigger] r@[i])@.len() <= MAX_BATCH_WRITE_ITEMS,
        decreases rest@.len(),
    {
        let ghost prev = pairs_view(rest@);
        let tail = rest.split_off(MAX_BATCH_WRITE_ITEMS);
        let ghost chunk_v = pairs_view(rest@);
        let ghost tail_v = pairs_view(tail@);
        let ghost before = put_lists_view(r@);
        proof {
            assert(chunk_v + tail_v =~= prev);
        }
        r.push(rest);
        rest = tail;
        proof {
            assert(put_lists_view(r@) =~= before.push(chunk_v));
            lemma_flatten_puts_push(before, chunk_v);
            assert((flatten_puts(before) + chunk_v) + tail_v =~= flatten_puts(before) + (chunk_v
                + tail_v));
        }
    }
    if rest.len() > 0 {
        let ghost chunk_v = pairs_view(rest@);
        let ghost before = put_lists_view(r@);
        r.push(rest);
        proof {
            assert(put_lists_view(r@) =~= before.push(chunk_v));
            lemma_flatten_puts_push(before, chunk_v);
            assert(flatten_puts(before) + chunk_v == orig);
        }
    } else {
        proof {
            assert(pairs_view(rest@) =~= Seq::<(Seq<u8>, Seq<u8>)>::empty());
            assert(flatten_puts(put_lists_view(r@)) + Seq::<(Seq<u8>, Seq<u8>)>::empty()
                =~= flatten_puts(put_lists_view(r@)));
        }
    }
    r
}

impl PendingBatch {
    /// Expand the prefix deletes with the key suffixes scanned under each
    /// prefix — `expansions[i]` lists the short keys found under prefix
    /// `i`, and each full key is the prefix concatenated with the short
    /// key — and split all deletes and puts into bounded chunks.
    pub fn into_plan(self, expansions: &Vec<Vec<Vec<u8>>>) -> (r: WritePlan)
        requires
            expansions@.len() == self.prefixes@.len(),
        ensures
            r.all_deletes() == keys_view(self.deletes@) + expanded_keys(
                keys_view(self.prefixes@),
                key_lists_view(expansions@),
            ),
            r.all_puts() == pairs_view(self.puts@),
            r.chunks_bounded(),
    {
        let ghost qsv = keys_view(self.prefixes@);
        let ghost dsv = keys_view(self.deletes@);
        let ghost psv = pairs_view(self.puts@);
        let ghost ev = key_lists_view(expansions@);
        let prefixes = self.prefixes;
        let mut all_deletes = self.deletes;
        let puts = self.puts;
        let n = expansions.len();
        for i in 0..n
            invariant
                n == expansions@.len(),
                expansions@.len() == prefixes@.len(),
                keys_view(prefixes@) == qsv,
                ev == key_lists_view(expansions@),
                keys_view(all_deletes@) == dsv + expanded_keys(
                    qsv.take(i as int),
                    ev.take(i as int),
                ),
        {
            let exp_i = &expansions[i];
            let m = exp_i.len();
            for j in 0..m
                invariant
                    n == expansions@.len(),
                    expansions@.len() == prefixes@.len(),
                    i < n,
                    m == exp_i@.len(),
                    exp_i == &expansions@[i as int],
                    keys_view(prefixes@) == qsv,
                    ev == key_lists_view(expansions@),
                    keys_view(all_deletes@) == dsv + expanded_keys(
                        qsv.take(i as int),
                        ev.take(i as int),
                    ) + full_keys(qsv[i as int], keys_view(exp_i@).take(j as int)),
            {
                let ghost before = keys_view(all_deletes@);
                all_deletes.push(bytes_concat(&prefixes[i], &exp_i[j]));
                proof {
                    assert(keys_view(all_deletes@) =~= before.push(
                        qsv[i as int] + keys_view(exp_i@)[j as int],
                    ));
                    assert(full_keys(qsv[i as int], keys_view(exp_i@).take(j + 1 as int))
                        =~= full_keys(qsv[i as int], keys_view(exp_i@).take(j as int)).push(
                        qsv[i as int] + keys_view(exp_i@)[j as int],
                    ));
                    assert((dsv + expanded_keys(qsv.take(i as int), ev.take(i as int))
                        + full_keys(qsv[i as int], keys_view(exp_i@).take(j as int))).push(
                        qsv[i as int] + keys_view(exp_i@)[j as int],
                    ) =~= dsv + expanded_keys(qsv.take(i as int), ev.take(i as int)) + full_keys(
                        qsv[i as int],
                        keys_view(exp_i@).take(j + 1 as int),
                    ));
                }
            }
            proof {
                assert(keys_view(exp_i@).take(keys_view(exp_i@).len() as int) =~= keys_view(
                    exp_i@,
                ));
                assert(keys_view(exp_i@) == ev[i as int]);
                assert(qsv.take(i + 1 as int) =~= qsv.take(i as int).push(qsv[i as int]));
                assert(ev.take(i + 1 as int) =~= ev.take(i as int).push(ev[i as int]));
                lemma_expanded_push(qsv.take(i as int), ev.take(i as int), qsv[i as int], ev[i as int]);
                assert(dsv + (expanded_keys(qsv.take(i as int), ev.take(i as int)) + full_keys(
                    qsv[i as int],
                    ev[i as int],
                )) =~= dsv + expanded_keys(qsv.take(i as int), ev.take(i as int)) + full_keys(
                    qsv[i as int],
                    ev[i as int],
                ));
            }
        }
        proof {
            assert(qsv.take(qsv.len() as int) =~= qsv);
            assert(ev.take(ev.len() as int) =~= ev);
        }
        let delete_chunks = chunk_keys(all_deletes);
        let put_chunks = chunk_puts(puts);
        WritePlan { delete_chunks, put_chunks }
    }
}

/// Delete operations for each chunk of a chunked key list.
pub open spec fn delete_chunk_ops(cs: Seq<Seq<Seq<u8>>>) -> Seq<Seq<OpView>> {
    cs.map_values(|c: Seq<Seq<u8>>| delete_ops(c))
}

/// Put operations for each chunk of a chunked pair list.
pub open spec fn put_chunk_ops(cs: Seq<Seq<(Seq<u8>, Seq<u8>)>>) -> Seq<Seq<OpView>> {
    cs.map_values(|c: Seq<(Seq<u8>, Seq<u8>)>| put_ops(c))
}

impl WritePlan {
    /// The plan as the sequence of network calls it makes: one operation
    /// list per chunk, every delete chunk before every put chunk.
    pub open spec fn chunk_ops(self) -> Seq<Seq<OpView>> {
        delete_chunk_ops(key_lists_view(self.delete_chunks@)) + put_chunk_ops(
            put_lists_view(self.put_chunks@),
        )
    }
}

/// The entry a key holds after the chunks are applied one call at a time.
pub open spec fn eval_chunks(chunks: Seq<Seq<OpView>>, k: Seq<u8>, cur: Option<Seq<u8>>) -> Option<
    Seq<u8>,
>
    decreases chunks.len(),
{
    if chunks.len() == 0 {
        cur
    } else {
        eval_chunks(chunks.drop_first(), k, eval_ops(chunks[0], k, cur))
    }
}

/// The operations of all chunks, in submission order.
pub open spec fn flatten_chunk_ops(chunks: Seq<Seq<OpView>>) -> Seq<OpView>
    decreases chunks.len(),
{
    if chunks.len() == 0 {
        Seq::empty()
    } else {
        chunks[0] + flatten_chunk_ops(chunks.drop_first())
    }
}

proof fn lemma_eval_chunks_flatten(chunks: Seq<Seq<OpView>>, k: Seq<u8>, cur: Option<Seq<u8>>)
    ensures
        eval_chunks(chunks, k, cur) == eval_ops(flatten_chunk_ops(chunks), k, cur),
    decreases chunks.len(),
{
    if chunks.len() == 0 {
    } else {
        lemma_eval_ops_concat(chunks[0], flatten_chunk_ops(chunks.drop_first()), k, cur);
        lemma_eval_chunks_flatten(chunks.drop_first(), k, eval_ops(chunks[0], k, cur));
    }
}

proof fn lemma_flatten_chunk_ops_concat(a: Seq<Seq<OpView>>, b: Seq<Seq<OpView>>)
    ensures
        flatten_chunk_ops(a + b) == flatten_chunk_ops(a) + flatten_chunk_ops(b),
    decreases a.len(),
{
    if a.len() == 0 {
        assert(a + b =~= b);
        assert(flatten_chunk_ops(a) + flatten_chunk_ops(b) =~= flatten_chunk_ops(b));
    } else {
        assert((a + b).drop_first() =~= a.drop_first() + b);
        assert((a + b)[0] == a[0]);
        lemma_flatten_chunk_ops_concat(a.drop_first(), b);
        assert(a[0] + (flatten_chunk_ops(a.drop_first()) + flatten_chunk_ops(b)) =~= (a[0]
            + flatten_chunk_ops(a.drop_first())) + flatten_chunk_ops(b));
    }
}

proof fn lemma_delete_chunk_ops_flatten(cs: Seq<Seq<Seq<u8>>>)
    ensures
        flatten_chunk_ops(delete_chunk_ops(cs)) == delete_ops(flatten_keys(cs)),
    decreases cs.len(),
{
    if cs.len() == 0 {
        assert(flatten_chunk_ops(delete_chunk_ops(cs)) =~= delete_ops(flatten_keys(cs)));
    } else {
        assert(delete_chunk_ops(cs).drop_first() =~= delete_chunk_ops(cs.drop_first()));
        assert(delete_chunk_ops(cs)[0] == delete_ops(cs[0]));
        lemma_delete_chunk_ops_flatten(cs.drop_first());
        assert(delete_ops(cs[0] + flatten_keys(cs.drop_first())) =~= delete_ops(cs[0])
            + delete_ops(flatten_keys(cs.drop_first())));
    }
}

proof fn lemma_put_chunk_ops_flatten(cs: Seq<Seq<(Seq<u8>, Seq<u8>)>>)
    ensures
        flatten_chunk_ops(put_chunk_ops(cs)) == put_ops(flatten_puts(cs)),
    decreases cs.len(),
{
    if cs.len() == 0 {
        assert(flatten_chunk_ops(put_chunk_ops(cs)) =~= put_ops(flatten_puts(cs)));
    } else {
        assert(put_chunk_ops(cs).drop_first() =~= put_chunk_ops(cs.drop_first()));
        assert(put_chunk_ops(cs)[0] == put_ops(cs[0]));
        lemma_put_chunk_ops_flatten(cs.drop_first());
        assert(put_ops(cs[0] + flatten_puts(cs.drop_first())) =~= put_ops(cs[0]) + put_ops(
            flatten_puts(cs.drop_first()),
        ));
    }
}

/// Chunking is transparent: submitting the plan chunk by chunk — each
/// chunk one network call, delete chunks first — changes each key exactly
/// as applying every delete and then every put at once.
pub proof fn lemma_chunked_submission(plan: WritePlan, k: Seq<u8>, cur: Option<Seq<u8>>)
    ensures
        eval_chunks(plan.chunk_ops(), k, cur) == eval_ops(plan.ops(), k, cur),
{
    lemma_eval_chunks_flatten(plan.chunk_ops(), k, cur);
    lemma_flatten_chunk_ops_concat(
        delete_chunk_ops(key_lists_view(plan.delete_chunks@)),
        put_chunk_ops(put_lists_view(plan.put_chunks@)),
    );
    lemma_delete_chunk_ops_flatten(key_lists_view(plan.delete_chunks@));
    lemma_put_chunk_ops_flatten(put_lists_view(plan.put_chunks@));
}

/// The store-level meaning of executing a prepared batch: if each expansion
/// lists exactly the key suffixes the store holds under its prefix, then
/// applying every delete of the plan — the surviving key deletes and the
/// expanded prefix deletes — followed by every put changes each key of the
/// store exactly as the original batch does.
pub proof fn lemma_plan_execution(
    batch_ops: Seq<OpView>,
    prefixes: Seq<Seq<u8>>,
    deletes: Seq<Seq<u8>>,
    puts: Seq<(Seq<u8>, Seq<u8>)>,
    exps: Seq<Seq<Seq<u8>>>,
    m: Map<Seq<u8>, Seq<u8>>,
    k: Seq<u8>,
)
    requires
        forall|k2: Seq<u8>, cur: Option<Seq<u8>>|
            #[trigger] eval_ops(pending_ops(prefixes, deletes, puts), k2, cur) == eval_ops(
                batch_ops,
                k2,
                cur,
            ),
        exps.len() == prefixes.len(),
        forall|i: int, s: Seq<u8>|
            0 <= i < exps.len() ==> ((#[trigger] exps[i].contains(s)) <==> m.dom().contains(
                prefixes[i] + s,
            )),
    ensures
        eval_ops(
            delete_ops(deletes + expanded_keys(prefixes, exps)) + put_ops(puts),
            k,
            store_at(m, k),
        ) == eval_ops(batch_ops, k, store_at(m, k)),
{
    let m_at = store_at(m, k);
    let all_del = deletes + expanded_keys(prefixes, exps);
    lemma_eval_ops_concat(delete_ops(all_del), put_ops(puts), k, m_at);
    lemma_delete_stage_ops(all_del, k, m_at);
    lemma_put_stage_ops(puts, k, eval_delete_stage(all_del, k, m_at));
    lemma_pending_ops_eval(prefixes, deletes, puts, k, m_at);
    lemma_expanded_contains(prefixes, exps, k);
    assert(eval_delete_stage(all_del, k, m_at) == eval_delete_stage(
        deletes,
        k,
        eval_prefix_stage(prefixes, k, m_at),
    )) by {
        if deletes.contains(k) {
            let i = choose|i: int| 0 <= i < deletes.len() && deletes[i] == k;
            assert(all_del[i] == k);
            assert(all_del.contains(k));
        } else if crate::batch::covered_by_any(prefixes, k) {
            if m.dom().contains(k) {
                let q = choose|q: Seq<u8>| prefixes.contains(q) && q.is_prefix_of(k);
                let iq = choose|iq: int| 0 <= iq < prefixes.len() && prefixes[iq] == q;
                let s = k.skip(q.len() as int);
                lemma_prefix_split(q, k);
                assert(m.dom().contains(prefixes[iq] + s));
                assert(exps[iq].contains(s));
                assert(expanded_keys(prefixes, exps).contains(k));
                let j = choose|j: int|
                    0 <= j < expanded_keys(prefixes, exps).len() && expanded_keys(prefixes, exps)[j]
                        == k;
                assert(all_del[deletes.len() + j] == k);
                assert(all_del.contains(k));
            }
        } else {
            if all_del.contains(k) {
                let w = choose|w: int| 0 <= w < all_del.len() && all_del[w] == k;
                assert(w >= deletes.len());
                assert(expanded_keys(prefixes, exps)[w - deletes.len()] == k);
                assert(expanded_keys(prefixes, exps).contains(k));
                let (i, s) = choose|i: int, s: Seq<u8>|
                    0 <= i < exps.len() && #[trigger] exps[i].contains(s) && k == prefixes[i] + s;
                assert(prefixes[i].is_prefix_of(k)) by {
                    assert(prefixes[i] =~= (prefixes[i] + s).subrange(
                        0,
                        prefixes[i].len() as int,
                    ));
                }
                assert(prefixes.contains(prefixes[i]));
                assert(crate::batch::covered_by_any(prefixes, k));
                assert(false);
            }
        }
    }
}

/// End to end: a batch prepared into a partition whose expansions list
/// exactly the store's key suffixes under each surviving prefix, and
/// submitted as every delete followed by every put, changes each key of
/// the store exactly as the batch itself.
pub proof fn lemma_write_batch_execution(
    batch_ops: Seq<OpView>,
    pend: PendingBatch,
    exps: Seq<Seq<Seq<u8>>>,
    m: Map<Seq<u8>, Seq<u8>>,
    k: Seq<u8>,
)
    requires
        forall|k2: Seq<u8>, cur: Option<Seq<u8>>| #[trigger] eval_ops(pend.ops(), k2, cur)
            == eval_ops(batch_ops, k2, cur),
        exps.len() == pend.prefixes@.len(),
        forall|i: int, s: Seq<u8>|
            0 <= i < exps.len() ==> (#[trigger] exps[i].contains(s) <==> m.dom().contains(
                keys_view(pend.prefixes@)[i] + s,
            )),
    ensures
        eval_ops(
            delete_ops(
                keys_view(pend.deletes@) + expanded_keys(keys_view(pend.prefixes@), exps),
            ) + put_ops(pairs_view(pend.puts@)),
            k,
            store_at(m, k),
        ) == eval_ops(batch_ops, k, store_at(m, k)),
{
    assert forall|k2: Seq<u8>, cur: Option<Seq<u8>>|
        #[trigger] eval_ops(
            pending_ops(keys_view(pend.prefixes@), keys_view(pend.deletes@), pairs_view(pend.puts@)),
            k2,
            cur,
        ) == eval_ops(batch_ops, k2, cur) by {
        assert(eval_ops(pend.ops(), k2, cur) == eval_ops(batch_ops, k2, cur));
    }
    lemma_plan_execution(
        batch_ops,
        keys_view(pend.prefixes@),
        keys_view(pend.deletes@),
        pairs_view(pend.puts@),
        exps,
        m,
        k,
    );
}

} // verus!
