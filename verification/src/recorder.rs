//! The recorder's batching decisions: splitting a too-large batch and
//! the image and flush cadences. The subscription plumbing around it
//! hands update batches in.
use vstd::prelude::*;

verus! {

use crate::archive::{items_of, Archive, ArchiveError, BatchItem, MAX_RECORD_ITEMS};
use crate::time::DT;
use crate::value::VM;

/// Splits a batch in half, as the recorder does when a record is too
/// large: the first half stays, the second comes back to be retried
/// later.
pub fn split_batch(batch: &mut Vec<BatchItem>) -> (r: Vec<BatchItem>)
    requires
        old(batch)@.len() >= 2,
    ensures
        final(batch)@ == old(batch)@.take(old(batch)@.len() as int / 2),
        r@ == old(batch)@.skip(old(batch)@.len() as int / 2),
        final(batch)@.len() < old(batch)@.len(),
        r@.len() < old(batch)@.len(),
{
    let at = batch.len() / 2;
    let r = batch.split_off(at);
    proof {
        assert(batch@ =~= old(batch)@.take(old(batch)@.len() as int / 2));
        assert(r@ =~= old(batch)@.skip(old(batch)@.len() as int / 2));
    }
    r
}

/// The `(id, model)` pairs of the items of blocks `i .. j`, in order.
pub open spec fn blocks_items(blocks: Seq<crate::archive::Block>, i: int, j: int) -> Seq<
    (crate::archive::Id, Option<VM>),
>
    decreases j - i,
{
    if i < 0 || i >= j || j > blocks.len() {
        Seq::empty()
    } else {
        items_of(blocks[i].items@) + blocks_items(blocks, i + 1, j)
    }
}

proof fn lemma_blocks_items_split(blocks: Seq<crate::archive::Block>, i: int, m: int, j: int)
    requires
        0 <= i <= m <= j <= blocks.len(),
    ensures
        blocks_items(blocks, i, j) == blocks_items(blocks, i, m) + blocks_items(
            blocks,
            m,
            j,
        ),
    decreases m - i,
{
    if i == m {
        assert(blocks_items(blocks, i, j) =~= blocks_items(blocks, i, m) + blocks_items(
            blocks,
            m,
            j,
        ));
    } else {
        lemma_blocks_items_split(blocks, i + 1, m, j);
        assert(blocks_items(blocks, i, j) =~= blocks_items(blocks, i, m) + blocks_items(
            blocks,
            m,
            j,
        ));
    }
}

proof fn lemma_blocks_items_same(a: Seq<crate::archive::Block>, b: Seq<crate::archive::Block>, i: int, j: int)
    requires
        0 <= i,
        j <= a.len(),
        j <= b.len(),
        forall|k: int| i <= k < j ==> a[k] == b[k],
    ensures
        blocks_items(a, i, j) == blocks_items(b, i, j),
    decreases j - i,
{
    if i < j {
        lemma_blocks_items_same(a, b, i + 1, j);
        assert(blocks_items(a, i, j) =~= blocks_items(b, i, j));
    } else {
        assert(blocks_items(a, i, j) =~= blocks_items(b, i, j));
    }
}

/// Appends a delta batch, splitting it in half as long as the archive
/// refuses the record as too large, as the recorder's write loop does.
/// On success the appended blocks are all deltas at the given
/// timestamp and their items, concatenated in order, are exactly the
/// batch: nothing dropped, nothing doubled. On an error the blocks
/// appended so far carry a prefix of the batch; the recorder treats
/// any error other than the split as fatal.
pub fn add_batch_splitting(
    archive: &mut Archive,
    ts: DT,
    batch: Vec<BatchItem>,
    fuel: u32,
) -> (r: Result<usize, ArchiveError>)
    requires
        old(archive).wf(),
        ts.wf(),
        forall|k: int|
            0 <= k < batch@.len() ==> (#[trigger] batch@[k]).0 < old(archive).index_len(),
    ensures
        final(archive).wf(),
        final(archive).index_len() == old(archive).index_len(),
        final(archive).num_blocks() >= old(archive).num_blocks(),
        forall|i: int|
            0 <= i < old(archive).num_blocks() ==> final(archive).spec_blocks()[i] == old(archive).spec_blocks()[i],
        forall|i: int|
            old(archive).num_blocks() <= i < final(archive).num_blocks() ==> !(
            #[trigger] final(archive).spec_blocks()[i]).image && final(archive).spec_blocks()[i].ts == ts,
        (match r {
            Result::Ok(n) => final(archive).num_blocks() == old(archive).num_blocks() + n
                && blocks_items(
                final(archive).spec_blocks(),
                old(archive).num_blocks() as int,
                final(archive).num_blocks() as int,
            ) == items_of(batch@),
            Result::Err(_) => blocks_items(
                final(archive).spec_blocks(),
                old(archive).num_blocks() as int,
                final(archive).num_blocks() as int,
            ).len() <= items_of(batch@).len() && blocks_items(
                final(archive).spec_blocks(),
                old(archive).num_blocks() as int,
                final(archive).num_blocks() as int,
            ) == items_of(batch@).take(
                blocks_items(
                    final(archive).spec_blocks(),
                    old(archive).num_blocks() as int,
                    final(archive).num_blocks() as int,
                ).len() as int,
            ),
        }),
    decreases fuel,
{
    if batch.len() < MAX_RECORD_ITEMS {
        let ghost b0 = batch@;
        let ghost old_n = archive.num_blocks() as int;
        match archive.add_batch(false, ts, batch) {
            Result::Ok(()) => {
                proof {
                    let bs = archive.spec_blocks();
                    assert(0 <= old_n && old_n + 1 == bs.len());
                    assert(blocks_items(bs, old_n + 1, old_n + 1) =~= Seq::<
                        (crate::archive::Id, Option<VM>),
                    >::empty());
                    assert(blocks_items(bs, old_n, old_n + 1) == items_of(
                        bs[old_n].items@,
                    ) + blocks_items(bs, old_n + 1, old_n + 1));
                    assert(items_of(bs[old_n].items@) =~= items_of(b0));
                    assert(blocks_items(bs, old_n, old_n + 1) =~= items_of(b0));
                }
                Result::Ok(1)
            },
            Result::Err(e) => {
                proof {
                    assert(blocks_items(archive.spec_blocks(), old_n, old_n)
                        =~= Seq::<(crate::archive::Id, Option<VM>)>::empty());
                    assert(items_of(b0).take(0) =~= Seq::<
                        (crate::archive::Id, Option<VM>),
                    >::empty());
                }
                Result::Err(e)
            },
        }
    } else if fuel == 0 || batch.len() < 2 {
        proof {
            let old_n = archive.num_blocks() as int;
            assert(blocks_items(archive.spec_blocks(), old_n, old_n) =~= Seq::<
                (crate::archive::Id, Option<VM>),
            >::empty());
            assert(items_of(batch@).take(0) =~= Seq::<
                (crate::archive::Id, Option<VM>),
            >::empty());
        }
        Result::Err(ArchiveError::RecordTooLarge)
    } else {
        let ghost b0 = batch@;
        let ghost old_n = archive.num_blocks() as int;
        let mut first = batch;
        let second = split_batch(&mut first);
        let ghost half = b0.len() as int / 2;
        proof {
            assert(items_of(first@) =~= items_of(b0).take(half));
            assert(items_of(second@) =~= items_of(b0).skip(half));
        }
        match add_batch_splitting(archive, ts, first, fuel - 1) {
            Result::Ok(n1) => {
                let ghost mid_n = archive.num_blocks() as int;
                let ghost mid_blocks = archive.spec_blocks();
                match add_batch_splitting(archive, ts, second, fuel - 1) {
                    Result::Ok(n2) => {
                        let cur_len = archive.len();
                        proof {
                            lemma_blocks_items_same(
                                mid_blocks,
                                archive.spec_blocks(),
                                old_n,
                                mid_n,
                            );
                            lemma_blocks_items_split(
                                archive.spec_blocks(),
                                old_n,
                                mid_n,
                                archive.num_blocks() as int,
                            );
                            assert(items_of(b0).take(half) + items_of(b0).skip(half)
                                =~= items_of(b0));
                            assert(n1 + n2 <= usize::MAX);
                        }
                        Result::Ok(n1 + n2)
                    },
                    Result::Err(e) => {
                        proof {
                            lemma_blocks_items_same(
                                mid_blocks,
                                archive.spec_blocks(),
                                old_n,
                                mid_n,
                            );
                            lemma_blocks_items_split(
                                archive.spec_blocks(),
                                old_n,
                                mid_n,
                                archive.num_blocks() as int,
                            );
                            let done = blocks_items(
                                archive.spec_blocks(),
                                old_n,
                                archive.num_blocks() as int,
                            );
                            let tail_done = blocks_items(
                                archive.spec_blocks(),
                                mid_n,
                                archive.num_blocks() as int,
                            );
                            let t = tail_done.len() as int;
                            assert(tail_done == items_of(b0).skip(half).take(t));
                            assert(t <= items_of(b0).skip(half).len());
                            assert(done.len() == half + t);
                            assert(done == items_of(b0).take(half) + items_of(b0).skip(
                                half,
                            ).take(t));
                            assert(done =~= items_of(b0).take(half + t));
                        }
                        Result::Err(e)
                    },
                }
            },
            Result::Err(e) => Result::Err(e),
        }
    }
}

/// Whether a full image is due: `image_frequency` units have gone by
/// since the last one (zero disables images).
pub fn image_due(len: usize, last_image: usize, image_frequency: usize) -> (r: bool)
    requires
        last_image <= len,
    ensures
        r == (image_frequency != 0 && len - last_image >= image_frequency),
{
    image_frequency != 0 && len - last_image >= image_frequency
}

/// Whether a flush is due: `flush_frequency` units have gone by since
/// the last one (zero means only on exit).
pub fn flush_due(len: usize, last_flush: usize, flush_frequency: usize) -> (r: bool)
    requires
        last_flush <= len,
    ensures
        r == (flush_frequency != 0 && len - last_flush >= flush_frequency),
{
    flush_frequency != 0 && len - last_flush >= flush_frequency
}

/// Some tracker base in `out` is an ancestor of (or equal to) `b`.
pub open spec fn tracked_by(out: Seq<crate::path::Path>, b: Seq<u8>) -> bool {
    exists|j: int|
        0 <= j < out.len() && crate::path::is_parent_spec((#[trigger] out[j])@, b)
}

/// The bytes equal one of the given bases.
pub open spec fn among(bases: Seq<crate::path::Path>, b: Seq<u8>) -> bool {
    exists|k: int| 0 <= k < bases.len() && (#[trigger] bases[k])@ == b
}

/// Coalesces the glob bases into change trackers: a base already
/// covered by an earlier tracker shares it, so globs under a common
/// ancestor poll one tracker. Every base ends up tracked, and every
/// tracker is one of the bases.
pub fn coalesce_trackers(bases: &Vec<crate::path::Path>) -> (r: Vec<crate::path::Path>)
    ensures
        forall|k: int|
            0 <= k < bases@.len() ==> tracked_by(r@, (#[trigger] bases@[k])@),
        forall|j: int| 0 <= j < r@.len() ==> among(bases@, (#[trigger] r@[j])@),
{
    let mut out: Vec<crate::path::Path> = Vec::new();
    let mut k: usize = 0;
    let n = bases.len();
    while k < n
        invariant
            n == bases@.len(),
            0 <= k <= n,
            forall|x: int| 0 <= x < k ==> tracked_by(out@, (#[trigger] bases@[x])@),
            forall|j: int| 0 <= j < out@.len() ==> among(bases@, (#[trigger] out@[j])@),
        decreases n - k,
    {
        let ghost out0 = out@;
        let mut covered = false;
        let mut j: usize = 0;
        let m = out.len();
        while j < m && !covered
            invariant
                n == bases@.len(),
                0 <= k < n,
                m == out@.len(),
                0 <= j <= m,
                out@ == out0,
                covered ==> tracked_by(out@, bases@[k as int]@),
            decreases m - j,
        {
            if out[j].is_parent(&bases[k]) {
                proof {
                    assert(crate::path::is_parent_spec(out@[j as int]@, bases@[k as int]@));
                }
                covered = true;
            }
            j += 1;
        }
        if !covered {
            out.push(bases[k].clone());
            proof {
                assert(out@[out@.len() - 1]@ == bases@[k as int]@);
                assert(crate::path::is_parent_spec(
                    out@[out@.len() - 1]@,
                    bases@[k as int]@,
                )) by {
                    assert(bases@[k as int]@.take(bases@[k as int]@.len() as int)
                        =~= bases@[k as int]@);
                }
                assert(tracked_by(out@, bases@[k as int]@));
                assert forall|x: int| 0 <= x < k implies tracked_by(
                    out@,
                    (#[trigger] bases@[x])@,
                ) by {
                    let wj = choose|j2: int|
                        0 <= j2 < out0.len() && crate::path::is_parent_spec(
                            (#[trigger] out0[j2])@,
                            bases@[x]@,
                        );
                    assert(out@[wj] == out0[wj]);
                    assert(crate::path::is_parent_spec(out@[wj]@, bases@[x]@));
                }
                assert forall|j2: int| 0 <= j2 < out@.len() implies among(
                    bases@,
                    (#[trigger] out@[j2])@,
                ) by {
                    if j2 < out0.len() {
                        assert(out@[j2] == out0[j2]);
                    } else {
                        assert(out@[j2]@ == bases@[k as int]@);
                    }
                }
            }
        }
        k += 1;
        proof {
            assert forall|x: int| 0 <= x < k implies tracked_by(
                out@,
                (#[trigger] bases@[x])@,
            ) by {
                if x < k - 1 {
                } else {
                    assert(tracked_by(out@, bases@[k - 1]@));
                }
            }
        }
    }
    out
}

} // verus!
