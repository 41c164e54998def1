//! A mathematical model of the target directory: a map from relative path
//! to file content.  The engine's guarantees — last write wins, untouched
//! files keep their content, replaying a log is idempotent, and replaying
//! after an interruption completes the batch — are proved against it.

use vstd::prelude::*;
use crate::types::OpView;

verus! {

/// The directory tree as the engine sees it: each present file's full
/// content, keyed by its path relative to the root.
pub type DirModel = Map<Seq<char>, Seq<char>>;

/// One completed atomic write: the target holds exactly the new content,
/// and no other file changes.
pub open spec fn write_one(m: DirModel, op: OpView) -> DirModel {
    m.insert(op.path, op.content)
}

/// The batch applied in order.
pub open spec fn write_all(m: DirModel, ops: Seq<OpView>) -> DirModel
    decreases ops.len(),
{
    if ops.len() == 0 {
        m
    } else {
        write_one(write_all(m, ops.drop_last()), ops.last())
    }
}

/// The content the batch leaves at path `p`, if the batch writes `p` at all:
/// the content of the last operation naming `p`.
pub open spec fn last_written(ops: Seq<OpView>, p: Seq<char>) -> Option<Seq<char>>
    decreases ops.len(),
{
    if ops.len() == 0 {
        None
    } else if ops.last().path == p {
        Some(ops.last().content)
    } else {
        last_written(ops.drop_last(), p)
    }
}

/// A batch leaves no trace at `p` exactly when none of its operations
/// names `p`.
pub proof fn lemma_last_written_none(ops: Seq<OpView>, p: Seq<char>)
    ensures
        last_written(ops, p) is None <==> (forall|i: int| 0 <= i < ops.len() ==> ops[i].path != p),
    decreases ops.len(),
{
    if ops.len() > 0 {
        lemma_last_written_none(ops.drop_last(), p);
        assert(forall|i: int| 0 <= i < ops.len() - 1 ==> ops.drop_last()[i] == ops[i]);
    }
}

/// If operation `i` is the last one naming its path, the batch leaves its
/// content there.
pub proof fn lemma_last_written_at(ops: Seq<OpView>, i: int)
    requires
        0 <= i < ops.len(),
        forall|j: int| i < j < ops.len() ==> ops[j].path != ops[i].path,
    ensures
        last_written(ops, ops[i].path) == Some(ops[i].content),
    decreases ops.len(),
{
    if i == ops.len() - 1 {
    } else {
        assert(ops.last().path != ops[i].path);
        assert(forall|j: int| 0 <= j < ops.len() - 1 ==> ops.drop_last()[j] == ops[j]);
        lemma_last_written_at(ops.drop_last(), i);
    }
}

/// The full characterization of a batch: a written path holds the last
/// content written to it, and every other path is exactly as before.
pub proof fn lemma_write_all_at(m: DirModel, ops: Seq<OpView>, p: Seq<char>)
    ensures
        match last_written(ops, p) {
            Some(c) => write_all(m, ops).contains_key(p) && write_all(m, ops)[p] == c,
            None => (write_all(m, ops).contains_key(p) <==> m.contains_key(p)) && (m.contains_key(
                p,
            ) ==> write_all(m, ops)[p] == m[p]),
        },
    decreases ops.len(),
{
    if ops.len() > 0 {
        lemma_write_all_at(m, ops.drop_last(), p);
    }
}

/// The atomicity of one write, at the model level: the target file holds
/// exactly the new content and every other file is untouched.  A write
/// that fails never reaches the model at all, so the pre-existing contents
/// stand.
pub proof fn lemma_write_one_atomic(m: DirModel, op: OpView)
    ensures
        write_one(m, op).contains_key(op.path),
        write_one(m, op)[op.path] == op.content,
        forall|q: Seq<char>|
            q != op.path ==> (write_one(m, op).contains_key(q) <==> m.contains_key(q)),
        forall|q: Seq<char>|
            q != op.path && m.contains_key(q) ==> write_one(m, op)[q] == m[q],
{
}

/// After a batch succeeds, every path some operation names holds the
/// content of the last operation naming it.
pub proof fn lemma_apply_gives_contents(m: DirModel, ops: Seq<OpView>, i: int)
    requires
        0 <= i < ops.len(),
        forall|j: int| i < j < ops.len() ==> ops[j].path != ops[i].path,
    ensures
        write_all(m, ops).contains_key(ops[i].path),
        write_all(m, ops)[ops[i].path] == ops[i].content,
{
    lemma_last_written_at(ops, i);
    lemma_write_all_at(m, ops, ops[i].path);
}

/// Replaying the same batch over its own result changes nothing: every
/// operation is a full-content overwrite, so recovery is idempotent.
pub proof fn lemma_replay_idempotent(m: DirModel, ops: Seq<OpView>)
    ensures
        write_all(write_all(m, ops), ops) == write_all(m, ops),
{
    let once = write_all(m, ops);
    let twice = write_all(once, ops);
    assert forall|p: Seq<char>| #[trigger] twice.contains_key(p) <==> once.contains_key(p) by {
        lemma_write_all_at(m, ops, p);
        lemma_write_all_at(once, ops, p);
    }
    assert forall|p: Seq<char>| once.contains_key(p) implies #[trigger] twice[p] == once[p] by {
        lemma_write_all_at(m, ops, p);
        lemma_write_all_at(once, ops, p);
    }
    assert(twice =~= once);
}

/// Crash recovery: if a run was interrupted after any prefix of the batch
/// had been applied, replaying the whole batch from the log yields exactly
/// the state of an uninterrupted run.
pub proof fn lemma_replay_after_prefix(m: DirModel, ops: Seq<OpView>, k: int)
    requires
        0 <= k <= ops.len(),
    ensures
        write_all(write_all(m, ops.take(k)), ops) == write_all(m, ops),
{
    let part = write_all(m, ops.take(k));
    let replayed = write_all(part, ops);
    let full = write_all(m, ops);
    assert forall|p: Seq<char>| #[trigger] replayed.contains_key(p) <==> full.contains_key(p) by {
        lemma_prefix_frame(m, ops, k, p);
    }
    assert forall|p: Seq<char>| full.contains_key(p) implies #[trigger] replayed[p] == full[p] by {
        lemma_prefix_frame(m, ops, k, p);
    }
    assert(replayed =~= full);
}

proof fn lemma_prefix_frame(m: DirModel, ops: Seq<OpView>, k: int, p: Seq<char>)
    requires
        0 <= k <= ops.len(),
    ensures
        (write_all(write_all(m, ops.take(k)), ops).contains_key(p) <==> write_all(
            m,
            ops,
        ).contains_key(p)),
        write_all(m, ops).contains_key(p) ==> write_all(write_all(m, ops.take(k)), ops)[p]
            == write_all(m, ops)[p],
{
    let part = write_all(m, ops.take(k));
    lemma_write_all_at(m, ops, p);
    lemma_write_all_at(part, ops, p);
    if last_written(ops, p) is None {
        lemma_last_written_none(ops, p);
        assert(forall|i: int| 0 <= i < k ==> ops.take(k)[i] == ops[i]);
        lemma_last_written_none(ops.take(k), p);
        lemma_write_all_at(m, ops.take(k), p);
    }
}

} // verus!
