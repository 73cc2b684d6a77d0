//! What a commit leaves for recovery: the WAL bytes of a commit parse as the
//! logged records, redo replays exactly the committed images, and replaying
//! them puts every committed page back at its offset.

use vstd::prelude::*;
use crate::page::{PAGE_SIZE, spec_header};
use crate::recovery::{replay_written, lemma_replay_written_concat};
use crate::tx::{image_log, commit_log, images_written, lemma_images_written_at, kind_tx};
use crate::types::PageId;
use crate::vfs::spec_page_offset;
use crate::wal::{WalKindView, WalRecordView, ReplayedImage, spec_encode, spec_parse_stream, lemma_stream_append,
    replay_list, redo_target, tx_committed, tx_aborted};

verus! {

/// The records that `image_log(start, tx, images)` holds, in order.
pub open spec fn image_records(start: int, tx: u64, images: Seq<Seq<u8>>) -> Seq<WalRecordView>
    decreases images.len(),
{
    if images.len() == 0 {
        Seq::empty()
    } else {
        let img = images.last();
        image_records(start, tx, images.drop_last()).push(WalRecordView {
            lsn: (start + image_log(start, tx, images.drop_last()).len()) as u64,
            kind: WalKindView::PageImage(tx, spec_header(img).page_id.0, img),
        })
    }
}

/// The replay entry of a page-image record.
pub open spec fn as_replayed(r: WalRecordView) -> ReplayedImage {
    match r.kind {
        WalKindView::PageImage(tx, page, image) => (r.lsn, tx, page, image),
        _ => (r.lsn, 0, 0, Seq::empty()),
    }
}

/// No record of `rs` is a page image, commit or abort of transaction `tx`.
pub open spec fn tx_unlogged(rs: Seq<WalRecordView>, tx: u64) -> bool {
    &&& !tx_committed(rs, tx)
    &&& !tx_aborted(rs, tx)
    &&& forall|j: int| 0 <= j < rs.len() ==> !((#[trigger] rs[j]).kind matches WalKindView::PageImage(t, _, _) && t == tx)
}

/// A WAL stream followed by a page-image log parses as its records followed
/// by the logged records.
#[verifier::spinoff_prover]
proof fn lemma_image_log_parses(b: Seq<u8>, rs: Seq<WalRecordView>, tx: u64, images: Seq<Seq<u8>>)
    requires
        spec_parse_stream(b, 0) == Some(rs),
        forall|i: int| 0 <= i < images.len() ==> (#[trigger] images[i]).len() == PAGE_SIZE,
        b.len() + image_log(b.len() as int, tx, images).len() <= u64::MAX,
    ensures
        spec_parse_stream(b + image_log(b.len() as int, tx, images), 0) == Some(rs + image_records(b.len() as int, tx, images)),
        image_records(b.len() as int, tx, images).len() == images.len(),
        forall|i: int| 0 <= i < images.len() ==> (#[trigger] image_records(b.len() as int, tx, images)[i]).kind
            == WalKindView::PageImage(tx, spec_header(images[i]).page_id.0, images[i]),
    decreases images.len(),
{
    let start = b.len() as int;
    if images.len() == 0 {
        assert(b + image_log(start, tx, images) =~= b);
        assert(rs + image_records(start, tx, images) =~= rs);
    } else {
        let d = images.drop_last();
        let prev = image_log(start, tx, d);
        let img = images.last();
        let rec = WalRecordView {
            lsn: (start + prev.len()) as u64,
            kind: WalKindView::PageImage(tx, spec_header(img).page_id.0, img),
        };
        assert forall|i: int| 0 <= i < d.len() implies (#[trigger] d[i]).len() == PAGE_SIZE by {
            assert(d[i] == images[i]);
        }
        lemma_image_log_parses(b, rs, tx, d);
        let recs = image_records(start, tx, d);
        let bp = b + prev;
        assert(img == images[images.len() - 1]);
        lemma_stream_append(bp, rs + recs, rec);
        assert(bp + spec_encode(rec) =~= b + image_log(start, tx, images));
        assert((rs + recs).push(rec) =~= rs + image_records(start, tx, images));
        assert forall|i: int| 0 <= i < images.len() implies (#[trigger] image_records(start, tx, images)[i]).kind
            == WalKindView::PageImage(tx, spec_header(images[i]).page_id.0, images[i]) by {
            if i < d.len() {
                assert(image_records(start, tx, images)[i] == recs[i]);
                assert(d[i] == images[i]);
            }
        }
    }
}

/// Replay of the first `k` records depends only on those records and on
/// which of them are redo targets.
proof fn lemma_replay_same(rs: Seq<WalRecordView>, rs2: Seq<WalRecordView>, k: int)
    requires
        0 <= k <= rs.len(),
        k <= rs2.len(),
        forall|i: int| 0 <= i < k ==> #[trigger] rs2[i] == rs[i],
        forall|i: int| 0 <= i < k ==> (#[trigger] redo_target(rs2, i) <==> redo_target(rs, i)),
    ensures
        replay_list(rs2, k) == replay_list(rs, k),
    decreases k,
{
    if k > 0 {
        lemma_replay_same(rs, rs2, k - 1);
        assert(redo_target(rs2, k - 1) == redo_target(rs, k - 1));
    }
}

/// Replay over records `n0 .. n0 + j`, all of them redo targets, adds their
/// entries in order.
proof fn lemma_replay_targets(rs: Seq<WalRecordView>, n0: int, j: int)
    requires
        0 <= n0,
        0 <= j,
        n0 + j <= rs.len(),
        forall|i: int| n0 <= i < n0 + j ==> #[trigger] redo_target(rs, i),
    ensures
        replay_list(rs, n0 + j) == replay_list(rs, n0) + rs.subrange(n0, n0 + j).map_values(|r: WalRecordView| as_replayed(r)),
    decreases j,
{
    if j == 0 {
        assert(replay_list(rs, n0) + rs.subrange(n0, n0).map_values(|r: WalRecordView| as_replayed(r)) =~= replay_list(rs, n0));
    } else {
        lemma_replay_targets(rs, n0, j - 1);
        assert(redo_target(rs, n0 + j - 1));
        let m = rs.subrange(n0, n0 + j).map_values(|r: WalRecordView| as_replayed(r));
        let m1 = rs.subrange(n0, n0 + j - 1).map_values(|r: WalRecordView| as_replayed(r));
        assert(m =~= m1.push(as_replayed(rs[n0 + j - 1])));
        assert(replay_list(rs, n0) + m =~= (replay_list(rs, n0) + m1).push(as_replayed(rs[n0 + j - 1])));
    }
}

/// Recovery sees a commit exactly: when a WAL stream is followed by the
/// commit log of a transaction that the stream has not logged yet, the
/// bytes parse as the old records followed by the logged ones, and redo
/// replays what it replayed before followed by every logged page image, in
/// order. Without the commit marker the same images are never replayed.
pub proof fn lemma_commit_log_recovered(b: Seq<u8>, rs: Seq<WalRecordView>, tx: u64, images: Seq<Seq<u8>>)
    requires
        spec_parse_stream(b, 0) == Some(rs),
        tx_unlogged(rs, tx),
        forall|i: int| 0 <= i < images.len() ==> (#[trigger] images[i]).len() == PAGE_SIZE,
        b.len() + commit_log(b.len() as int, tx, images).len() <= u64::MAX,
    ensures
        ({
            let recs = image_records(b.len() as int, tx, images);
            let marker = WalRecordView {
                lsn: (b.len() + image_log(b.len() as int, tx, images).len()) as u64,
                kind: WalKindView::CommitTx(tx),
            };
            let rs2 = rs + recs.push(marker);
            &&& spec_parse_stream(b + commit_log(b.len() as int, tx, images), 0) == Some(rs2)
            &&& replay_list(rs2, rs2.len() as int)
                == replay_list(rs, rs.len() as int) + recs.map_values(|r: WalRecordView| as_replayed(r))
        }),
        ({
            let rs3 = rs + image_records(b.len() as int, tx, images);
            &&& spec_parse_stream(b + image_log(b.len() as int, tx, images), 0) == Some(rs3)
            &&& replay_list(rs3, rs3.len() as int) == replay_list(rs, rs.len() as int)
        }),
{
    let start = b.len() as int;
    let log = image_log(start, tx, images);
    let recs = image_records(start, tx, images);
    let marker = WalRecordView { lsn: (start + log.len()) as u64, kind: WalKindView::CommitTx(tx) };
    lemma_image_log_parses(b, rs, tx, images);
    lemma_stream_append(b + log, rs + recs, marker);
    assert((b + log) + spec_encode(marker) =~= b + commit_log(start, tx, images));
    let rs2 = rs + recs.push(marker);
    assert((rs + recs).push(marker) =~= rs2);
    let n0 = rs.len() as int;
    let m = images.len() as int;
    // Old transactions keep their status: the new records only speak of `tx`.
    assert forall|i: int| 0 <= i < n0 implies rs2[i] == rs[i] && (#[trigger] redo_target(rs2, i) <==> redo_target(rs, i)) by {
        assert(rs2[i] == rs[i]);
        match rs[i].kind {
            WalKindView::PageImage(t, _, _) => {
                assert(t != tx);
                if tx_committed(rs2, t) {
                    let j = choose|j: int| 0 <= j < rs2.len() && (#[trigger] rs2[j]).kind == WalKindView::CommitTx(t);
                    if j >= n0 && j < n0 + m { assert(rs2[j] == recs[j - n0]); }
                    assert(j < n0);
                    assert(rs[j] == rs2[j]);
                }
                if tx_committed(rs, t) {
                    let j = choose|j: int| 0 <= j < rs.len() && (#[trigger] rs[j]).kind == WalKindView::CommitTx(t);
                    assert(rs2[j] == rs[j]);
                }
                if tx_aborted(rs2, t) {
                    let j = choose|j: int| 0 <= j < rs2.len() && (#[trigger] rs2[j]).kind == WalKindView::AbortTx(t);
                    if j >= n0 && j < n0 + m { assert(rs2[j] == recs[j - n0]); }
                    assert(j < n0);
                    assert(rs[j] == rs2[j]);
                }
                if tx_aborted(rs, t) {
                    let j = choose|j: int| 0 <= j < rs.len() && (#[trigger] rs[j]).kind == WalKindView::AbortTx(t);
                    assert(rs2[j] == rs[j]);
                }
            },
            _ => {},
        }
    }
    lemma_replay_same(rs, rs2, n0);
    // The logged images are redo targets: `tx` commits and never aborts.
    assert(rs2[n0 + m] == marker);
    assert(tx_committed(rs2, tx));
    assert(!tx_aborted(rs2, tx)) by {
        if tx_aborted(rs2, tx) {
            let j = choose|j: int| 0 <= j < rs2.len() && (#[trigger] rs2[j]).kind == WalKindView::AbortTx(tx);
            if j < n0 { assert(rs[j] == rs2[j]); }
            else if j < n0 + m { assert(rs2[j] == recs[j - n0]); }
        }
    }
    assert forall|i: int| n0 <= i < n0 + m implies #[trigger] redo_target(rs2, i) by {
        assert(rs2[i] == recs[i - n0]);
    }
    lemma_replay_targets(rs2, n0, m);
    assert(rs2.subrange(n0, n0 + m) =~= recs);
    assert(!redo_target(rs2, n0 + m));
    assert(replay_list(rs2, n0 + m + 1) == replay_list(rs2, n0 + m));
    // Without the marker, `tx` never commits.
    let rs3 = rs + recs;
    assert(!tx_committed(rs3, tx)) by {
        if tx_committed(rs3, tx) {
            let j = choose|j: int| 0 <= j < rs3.len() && (#[trigger] rs3[j]).kind == WalKindView::CommitTx(tx);
            if j < n0 { assert(rs[j] == rs3[j]); } else { assert(rs3[j] == recs[j - n0]); }
        }
    }
    assert forall|i: int| 0 <= i < n0 implies rs3[i] == rs[i] && (#[trigger] redo_target(rs3, i) <==> redo_target(rs, i)) by {
        assert(rs3[i] == rs[i]);
        match rs[i].kind {
            WalKindView::PageImage(t, _, _) => {
                if tx_committed(rs3, t) {
                    let j = choose|j: int| 0 <= j < rs3.len() && (#[trigger] rs3[j]).kind == WalKindView::CommitTx(t);
                    if j >= n0 { assert(rs3[j] == recs[j - n0]); }
                    assert(rs[j] == rs3[j]);
                }
                if tx_committed(rs, t) {
                    let j = choose|j: int| 0 <= j < rs.len() && (#[trigger] rs[j]).kind == WalKindView::CommitTx(t);
                    assert(rs3[j] == rs[j]);
                }
                if tx_aborted(rs3, t) {
                    let j = choose|j: int| 0 <= j < rs3.len() && (#[trigger] rs3[j]).kind == WalKindView::AbortTx(t);
                    if j >= n0 { assert(rs3[j] == recs[j - n0]); }
                    assert(rs[j] == rs3[j]);
                }
                if tx_aborted(rs, t) {
                    let j = choose|j: int| 0 <= j < rs.len() && (#[trigger] rs[j]).kind == WalKindView::AbortTx(t);
                    assert(rs3[j] == rs[j]);
                }
            },
            _ => {},
        }
    }
    lemma_replay_same(rs, rs3, n0);
    assert forall|i: int| n0 <= i < n0 + m implies !#[trigger] redo_target(rs3, i) by {
        assert(rs3[i] == recs[i - n0]);
    }
    lemma_replay_none(rs3, n0, m);
}

/// Replay over records `n0 .. n0 + j`, none of them redo targets, adds nothing.
proof fn lemma_replay_none(rs: Seq<WalRecordView>, n0: int, j: int)
    requires
        0 <= n0,
        0 <= j,
        n0 + j <= rs.len(),
        forall|i: int| n0 <= i < n0 + j ==> !#[trigger] redo_target(rs, i),
    ensures
        replay_list(rs, n0 + j) == replay_list(rs, n0),
    decreases j,
{
    if j > 0 {
        lemma_replay_none(rs, n0, j - 1);
        assert(!redo_target(rs, n0 + j - 1));
        assert(replay_list(rs, n0 + j) =~= replay_list(rs, n0 + j - 1));
    }
}

/// Replaying the logged records of `images` writes the images as a commit
/// writes them to the data file.
proof fn lemma_replay_images(x: Seq<u8>, start: int, tx: u64, images: Seq<Seq<u8>>)
    ensures
        replay_written(x, image_records(start, tx, images).map_values(|r: WalRecordView| as_replayed(r)))
            == images_written(x, images),
    decreases images.len(),
{
    let m = image_records(start, tx, images).map_values(|r: WalRecordView| as_replayed(r));
    if images.len() == 0 {
        assert(m =~= Seq::<ReplayedImage>::empty());
    } else {
        let d = images.drop_last();
        lemma_replay_images(x, start, tx, d);
        let md = image_records(start, tx, d).map_values(|r: WalRecordView| as_replayed(r));
        assert(m.drop_last() =~= md);
        let img = images.last();
        assert(m.last().2 == spec_header(img).page_id.0 && m.last().3 == img);
        assert(PageId(spec_header(img).page_id.0) == spec_header(img).page_id);
    }
}

/// A committed transaction survives a crash: when a WAL stream is followed
/// by the commit log of a transaction it has not logged yet, recovering from
/// those bytes onto any data-file bytes leaves each page the transaction
/// staged at that page's offset.
pub proof fn lemma_commit_recovered_pages(
    b: Seq<u8>,
    rs: Seq<WalRecordView>,
    tx: u64,
    images: Seq<Seq<u8>>,
    ids: Seq<u64>,
    c: Seq<u8>,
)
    requires
        spec_parse_stream(b, 0) == Some(rs),
        tx_unlogged(rs, tx),
        images.len() == ids.len(),
        forall|i: int| 0 <= i < images.len() ==> (#[trigger] images[i]).len() == PAGE_SIZE,
        forall|i: int| 0 <= i < images.len() ==> spec_header(#[trigger] images[i]).page_id.0 == ids[i],
        forall|i: int, j: int| 0 <= i < j < ids.len() ==> #[trigger] ids[i] < #[trigger] ids[j],
        b.len() + commit_log(b.len() as int, tx, images).len() <= u64::MAX,
    ensures
        spec_parse_stream(b + commit_log(b.len() as int, tx, images), 0) matches Some(rs2)
            && forall|i: int| 0 <= i < ids.len() ==> {
                let d = replay_written(c, replay_list(rs2, rs2.len() as int));
                let off = spec_page_offset(PageId(#[trigger] ids[i]));
                &&& off + PAGE_SIZE <= d.len()
                &&& d.subrange(off, off + PAGE_SIZE) == images[i]
            },
{
    lemma_commit_log_recovered(b, rs, tx, images);
    let start = b.len() as int;
    let recs = image_records(start, tx, images);
    let m = recs.map_values(|r: WalRecordView| as_replayed(r));
    let r0 = replay_list(rs, rs.len() as int);
    let rs2 = spec_parse_stream(b + commit_log(start, tx, images), 0)->0;
    assert(replay_list(rs2, rs2.len() as int) == r0 + m);
    lemma_replay_written_concat(c, r0, m);
    let x0 = replay_written(c, r0);
    lemma_replay_images(x0, start, tx, images);
    lemma_images_written_at(x0, images, ids);
}

/// A transaction id above every transaction id of a WAL stream has no page
/// image, commit or abort there, so the recovery laws above apply to its
/// commit log: a store opened with `TransactionalStore::resume` hands out
/// such ids.
pub proof fn lemma_fresh_tx_unlogged(rs: Seq<WalRecordView>, tx: u64)
    requires
        forall|i: int| 0 <= i < rs.len() ==> (kind_tx(#[trigger] rs[i].kind) matches Some(t) ==> t < tx),
    ensures
        tx_unlogged(rs, tx),
{
    if tx_committed(rs, tx) {
        let j = choose|j: int| 0 <= j < rs.len() && (#[trigger] rs[j]).kind == WalKindView::CommitTx(tx);
        assert(kind_tx(rs[j].kind) == Some(tx));
    }
    if tx_aborted(rs, tx) {
        let j = choose|j: int| 0 <= j < rs.len() && (#[trigger] rs[j]).kind == WalKindView::AbortTx(tx);
        assert(kind_tx(rs[j].kind) == Some(tx));
    }
    assert forall|j: int| 0 <= j < rs.len() implies !((#[trigger] rs[j]).kind matches WalKindView::PageImage(t, _, _) && t == tx) by {
        if let WalKindView::PageImage(t, _, _) = rs[j].kind {
            assert(kind_tx(rs[j].kind) == Some(t));
        }
    }
}

} // verus!
