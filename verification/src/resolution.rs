//! Laws of the resolution engine, stated over the scan's mathematical
//! mirror.
//!
//! A run's effect on disk is modelled by the operations it issues, applied
//! in issue order to an abstract filesystem; which of them were queued and
//! which ran synchronously changes timing, never content, so the model is
//! independent of budget and threshold. The central law: for an asset whose
//! three entries arrive in any of the six possible orders, the run ends
//! with exactly one file, at the sanitized destination, holding the
//! original bytes, and no orphan left unresolved.

use vstd::prelude::*;
use vstd::multiset::Multiset;

use crate::archive_operations::{
    assoc_lookup, asset_step, folder_pass, folder_step, has_folder_marker, orphan_asset_key,
    orphan_pass, orphan_step, route_write, scan_entries, scan_step, seq_contains, ContextView,
    PassState, ScanState,
};
use crate::paths::{
    asset_leaf, guid_of, leaf_of, lemma_entry_parts, lemma_leaf_literals_no_slash, meta_leaf,
    pathname_leaf, sibling_of,
};
use crate::sanitize_path::sanitize_spec;
use crate::thread_pool::TaskView;
use crate::write_ops::OpView;

verus! {

// ---------------------------------------------------------------------------
// The abstract filesystem the operations act on.
// ---------------------------------------------------------------------------

/// Files (path to content) and directories created so far.
pub ghost struct FsState {
    pub files: Map<Seq<u8>, Seq<u8>>,
    pub dirs: Set<Seq<u8>>,
}

/// The filesystem before anything is written.
pub open spec fn empty_fs() -> FsState {
    FsState { files: Map::empty(), dirs: Set::empty() }
}

/// What one operation does to the filesystem. A move whose source does not
/// exist fails and is abandoned, leaving the filesystem as it was.
pub open spec fn apply_op(fs: FsState, op: OpView) -> FsState {
    match op {
        OpView::CreateFile { target, data } => FsState {
            files: fs.files.insert(target, data),
            dirs: fs.dirs,
        },
        OpView::MoveFile { source, target } => {
            if fs.files.dom().contains(source) {
                FsState {
                    files: fs.files.remove(source).insert(target, fs.files[source]),
                    dirs: fs.dirs,
                }
            } else {
                fs
            }
        },
        OpView::DeleteFile { path } => FsState { files: fs.files.remove(path), dirs: fs.dirs },
        OpView::MakeDirectory { path } => FsState { files: fs.files, dirs: fs.dirs.insert(path) },
    }
}

/// The operations applied in order.
pub open spec fn apply_ops(fs: FsState, ops: Seq<OpView>) -> FsState
    decreases ops.len(),
{
    if ops.len() == 0 {
        fs
    } else {
        apply_ops(apply_op(fs, ops.first()), ops.drop_first())
    }
}

// ---------------------------------------------------------------------------
// The operations a run issues, in issue order.
// ---------------------------------------------------------------------------

/// The operation one write issues: nothing when the sanitizer rejects the
/// target, else the file creation at the sanitized target. Queued and
/// synchronous writes issue the same operation.
pub open spec fn route_issued(target: Seq<u8>, data: Seq<u8>) -> Seq<OpView> {
    match sanitize_spec(target) {
        Option::None => seq![],
        Option::Some(clean) => seq![OpView::CreateFile { target: clean, data: data }],
    }
}

/// The operations one scan step issues, given the context at that point.
pub open spec fn step_issued(ctx: ContextView, path: Seq<u8>, data: Seq<u8>) -> Seq<OpView> {
    if leaf_of(path) == asset_leaf() {
        match assoc_lookup(ctx.pathnames, path) {
            Option::Some(dest) => route_issued(dest, data),
            Option::None => {
                if seq_contains(ctx.folders, sibling_of(path, meta_leaf())) {
                    seq![]
                } else {
                    let g = guid_of(path);
                    if g.len() == 0 {
                        seq![]
                    } else {
                        route_issued(g, data)
                    }
                }
            },
        }
    } else {
        seq![]
    }
}

/// All operations the scan issues, in stream order.
pub open spec fn scan_issued(st0: ScanState, entries: Seq<(Seq<u8>, Seq<u8>)>) -> Seq<OpView>
    decreases entries.len(),
{
    if entries.len() == 0 {
        seq![]
    } else {
        scan_issued(st0, entries.drop_last()) + step_issued(
            scan_entries(st0, entries.drop_last()).ctx,
            entries.last().0,
            entries.last().1,
        )
    }
}

/// The operation resolving one orphan issues: a move to the sanitized
/// destination when the table now holds one, a deletion otherwise.
pub open spec fn orphan_issued_one(
    pathnames: Seq<(Seq<u8>, Seq<u8>)>,
    orphan: Seq<u8>,
) -> Seq<OpView> {
    match assoc_lookup(pathnames, orphan_asset_key(orphan)) {
        Option::Some(dest) => {
            match sanitize_spec(dest) {
                Option::None => seq![],
                Option::Some(clean) => seq![
                    OpView::MoveFile { source: orphan, target: clean },
                ],
            }
        },
        Option::None => seq![OpView::DeleteFile { path: orphan }],
    }
}

/// All operations the orphan pass issues, in the orphans' order.
pub open spec fn orphan_issued(
    pathnames: Seq<(Seq<u8>, Seq<u8>)>,
    orphans: Seq<Seq<u8>>,
) -> Seq<OpView>
    decreases orphans.len(),
{
    if orphans.len() == 0 {
        seq![]
    } else {
        orphan_issued(pathnames, orphans.drop_last()) + orphan_issued_one(
            pathnames,
            orphans.last(),
        )
    }
}

// ---------------------------------------------------------------------------
// Laws of routing and of the passes.
// ---------------------------------------------------------------------------

/// A payload at or above the stream threshold never occupies tracked
/// buffer memory, whatever the cap — even a cap of zero: routing it leaves
/// the pool, its queue and its reserved bytes, untouched.
pub proof fn lemma_large_write_bypasses_budget(
    pool: crate::thread_pool::PoolModel,
    sync_ops: Seq<OpView>,
    failures: Seq<Seq<u8>>,
    stream_threshold: int,
    target: Seq<u8>,
    data: Seq<u8>,
)
    requires
        data.len() >= stream_threshold,
    ensures
        route_write(pool, sync_ops, failures, stream_threshold, target, data).0 == pool,
{
}

/// When admission fails for a small write, the write is not queued and the
/// caller's synchronous fallback carries it instead: the pool is untouched
/// and the operation lands on the synchronous list.
pub proof fn lemma_refused_write_falls_back(
    pool: crate::thread_pool::PoolModel,
    sync_ops: Seq<OpView>,
    failures: Seq<Seq<u8>>,
    stream_threshold: int,
    target: Seq<u8>,
    data: Seq<u8>,
)
    requires
        sanitize_spec(target) is Some,
        data.len() < stream_threshold,
        pool.used + data.len() > pool.cap,
    ensures
        route_write(pool, sync_ops, failures, stream_threshold, target, data).0 == pool,
        route_write(pool, sync_ops, failures, stream_threshold, target, data).1 == sync_ops.push(
            OpView::CreateFile { target: sanitize_spec(target)->Some_0, data: data },
        ),
{
}

/// An orphan whose destination was never observed is deleted by run end,
/// and the deletion is recorded as a warning — never silent: resolving it
/// issues exactly the deletion of its temporary file and appends it to the
/// warned-about list, queued or not.
pub proof fn lemma_unresolved_orphan_deleted(
    st: PassState,
    pathnames: Seq<(Seq<u8>, Seq<u8>)>,
    orphan: Seq<u8>,
)
    requires
        assoc_lookup(pathnames, orphan_asset_key(orphan)) is None,
    ensures
        orphan_step(st, pathnames, orphan).deleted == st.deleted.push(orphan),
        orphan_issued_one(pathnames, orphan) == seq![OpView::DeleteFile { path: orphan }],
{
}

/// An orphan whose destination is now known is moved, not deleted: no
/// warning is recorded for it.
pub proof fn lemma_resolved_orphan_kept(
    st: PassState,
    pathnames: Seq<(Seq<u8>, Seq<u8>)>,
    orphan: Seq<u8>,
)
    requires
        assoc_lookup(pathnames, orphan_asset_key(orphan)) is Some,
    ensures
        orphan_step(st, pathnames, orphan).deleted == st.deleted,
{
}

/// An asset flagged as a folder placeholder whose destination is not in
/// the table leaves no orphan record and issues no write: the scan skips
/// its content entirely.
pub proof fn lemma_folder_placeholder_skipped(st: ScanState, path: Seq<u8>, data: Seq<u8>)
    requires
        assoc_lookup(st.ctx.pathnames, path) is None,
        seq_contains(st.ctx.folders, sibling_of(path, meta_leaf())),
    ensures
        asset_step(st, path, data) == st,
        step_issued(st.ctx, path, data) == Seq::<OpView>::empty(),
{
    assert(step_issued(st.ctx, path, data) =~= Seq::<OpView>::empty());
}

/// A destination whose asset is flagged as a folder placeholder yields a
/// created directory: the folder pass issues the sanitized directory
/// creation for it, queued when the budget admits it and synchronous
/// otherwise.
pub proof fn lemma_folder_placeholder_materialized(
    st: PassState,
    folders: Seq<Seq<u8>>,
    asset_path: Seq<u8>,
    dest: Seq<u8>,
)
    requires
        seq_contains(folders, sibling_of(asset_path, meta_leaf())),
        sanitize_spec(dest) is Some,
    ensures
        ({
            let op = OpView::MakeDirectory { path: sanitize_spec(dest)->Some_0 };
            let st1 = folder_step(st, folders, asset_path, dest);
            if st.pool.used + 1 <= st.pool.cap {
                st1.pool.pending == st.pool.pending.push(TaskView { size: 1, op: op })
                    && st1.sync_ops == st.sync_ops
            } else {
                st1.sync_ops == st.sync_ops.push(op) && st1.pool == st.pool
            }
        }),
        folder_step(st, folders, asset_path, dest).deleted == st.deleted,
{
}

/// Routing places the issued operation exactly once: a rejected target
/// only records the failure; an accepted write puts one copy of the
/// planned file creation either on the queue or on the synchronous list,
/// never both, never neither.
pub proof fn lemma_route_write_places_one_op(
    pool: crate::thread_pool::PoolModel,
    sync_ops: Seq<OpView>,
    failures: Seq<Seq<u8>>,
    stream_threshold: int,
    target: Seq<u8>,
    data: Seq<u8>,
)
    ensures
        ({
            let r = route_write(pool, sync_ops, failures, stream_threshold, target, data);
            match sanitize_spec(target) {
                Option::None => r.0 == pool && r.1 == sync_ops && r.2 == failures.push(target),
                Option::Some(clean) => {
                    let op = OpView::CreateFile { target: clean, data: data };
                    &&& r.2 == failures
                    &&& (r.0.pending == pool.pending && r.1 == sync_ops.push(op)) || (
                    r.0.pending == pool.pending.push(
                        TaskView { size: data.len() as int, op: op },
                    ) && r.1 == sync_ops)
                },
            }
        }),
{
}

/// Each scan step places the operations it issues exactly once: nothing
/// for a pathname, metadata, skipped or rejected entry; for an accepted
/// asset write, one copy of the planned creation, on the queue or on the
/// synchronous list, never both and never dropped.
pub proof fn lemma_scan_step_places_issued(st: ScanState, path: Seq<u8>, data: Seq<u8>)
    ensures
        ({
            let st1 = scan_step(st, path, data);
            let issued = step_issued(st.ctx, path, data);
            &&& issued.len() <= 1
            &&& (issued.len() == 0 ==> st1.pool.pending == st.pool.pending && st1.sync_ops
                == st.sync_ops)
            &&& (issued.len() == 1 ==> {
                ||| (st1.pool.pending == st.pool.pending && st1.sync_ops == st.sync_ops.push(
                    issued[0],
                ))
                ||| (st1.sync_ops == st.sync_ops && st1.pool.pending == st.pool.pending.push(
                    TaskView { size: data.len() as int, op: issued[0] },
                ))
            })
        }),
{
}

/// Each orphan-pass step places the operation it issues exactly once: the
/// move under its nominal one-kilobyte estimate, the deletion under a
/// minimal size, on the queue or on the synchronous list.
pub proof fn lemma_orphan_step_places_issued(
    st: PassState,
    pathnames: Seq<(Seq<u8>, Seq<u8>)>,
    orphan: Seq<u8>,
)
    ensures
        ({
            let st1 = orphan_step(st, pathnames, orphan);
            let issued = orphan_issued_one(pathnames, orphan);
            let estimate: int = if assoc_lookup(pathnames, orphan_asset_key(orphan)) is Some {
                1024
            } else {
                1
            };
            &&& issued.len() <= 1
            &&& (issued.len() == 0 ==> st1.pool.pending == st.pool.pending && st1.sync_ops
                == st.sync_ops)
            &&& (issued.len() == 1 ==> {
                ||| (st1.pool.pending == st.pool.pending && st1.sync_ops == st.sync_ops.push(
                    issued[0],
                ))
                ||| (st1.sync_ops == st.sync_ops && st1.pool.pending == st.pool.pending.push(
                    TaskView { size: estimate, op: issued[0] },
                ))
            })
        }),
{
}

/// The views of the operations on the queue.
pub open spec fn pending_ops(pending: Seq<TaskView>) -> Seq<OpView> {
    pending.map_values(|t: TaskView| t.op)
}

/// Over a whole scan, the operations on the synchronous list and on the
/// queue together are exactly the initial ones plus every operation the
/// scan issued: none is dropped, duplicated or invented. Budget and
/// threshold only decide the split between queue and synchronous list.
pub proof fn lemma_scan_places_all_issued(st0: ScanState, entries: Seq<(Seq<u8>, Seq<u8>)>)
    ensures
        ({
            let st1 = scan_entries(st0, entries);
            st1.sync_ops.to_multiset().add(pending_ops(st1.pool.pending).to_multiset())
                =~= st0.sync_ops.to_multiset().add(
                pending_ops(st0.pool.pending).to_multiset(),
            ).add(scan_issued(st0, entries).to_multiset())
        }),
    decreases entries.len(),
{
    broadcast use vstd::seq_lib::group_to_multiset_ensures;
    broadcast use vstd::multiset::group_multiset_axioms;

    let base = st0.sync_ops.to_multiset().add(pending_ops(st0.pool.pending).to_multiset());
    if entries.len() == 0 {
        assert(scan_issued(st0, entries).to_multiset() =~= Multiset::<OpView>::empty());
        assert(base.add(Multiset::<OpView>::empty()) =~= base);
    } else {
        let prefix = entries.drop_last();
        let e = entries.last();
        lemma_scan_places_all_issued(st0, prefix);
        let stp = scan_entries(st0, prefix);
        let st1 = scan_step(stp, e.0, e.1);
        assert(scan_entries(st0, entries) == st1);
        let issued = step_issued(stp.ctx, e.0, e.1);
        assert(scan_issued(st0, entries) == scan_issued(st0, prefix) + issued);
        vstd::seq_lib::lemma_multiset_commutative(scan_issued(st0, prefix), issued);
        lemma_scan_step_places_issued(stp, e.0, e.1);
        let ip = scan_issued(st0, prefix).to_multiset();
        let sp = stp.sync_ops.to_multiset();
        let pp = pending_ops(stp.pool.pending).to_multiset();
        assert(sp.add(pp) == base.add(ip));
        let s1 = st1.sync_ops.to_multiset();
        let p1 = pending_ops(st1.pool.pending).to_multiset();
        if issued.len() == 0 {
            assert(issued.to_multiset() =~= Multiset::<OpView>::empty());
            assert(s1.add(p1) == sp.add(pp));
            assert(ip.add(issued.to_multiset()) =~= ip);
            assert(s1.add(p1) =~= base.add(ip.add(issued.to_multiset())));
        } else {
            let x = issued[0];
            assert(issued =~= seq![issued[0]]);
            assert(issued.to_multiset() =~= Multiset::<OpView>::empty().insert(x));
            if st1.pool.pending == stp.pool.pending {
                assert(st1.sync_ops == stp.sync_ops.push(x));
                assert(s1 =~= sp.insert(x));
            } else {
                let t = TaskView { size: e.1.len() as int, op: x };
                assert(st1.pool.pending == stp.pool.pending.push(t));
                assert(pending_ops(st1.pool.pending) =~= pending_ops(stp.pool.pending).push(x));
                assert(p1 =~= pp.insert(x));
            }
            assert(s1.add(p1) =~= sp.add(pp).insert(x));
            assert(base.add(ip.add(issued.to_multiset())) =~= base.add(ip).insert(x));
            assert(s1.add(p1) =~= base.add(ip.add(issued.to_multiset())));
        }
    }
}

/// The orphans whose key never received a destination, in the order they
/// were recorded.
pub open spec fn unresolved_orphans(
    pathnames: Seq<(Seq<u8>, Seq<u8>)>,
    orphans: Seq<Seq<u8>>,
) -> Seq<Seq<u8>> {
    orphans.filter(|o: Seq<u8>| assoc_lookup(pathnames, orphan_asset_key(o)) is None)
}

/// What the orphan pass deletes — and records a warning for — is exactly
/// the list of orphans whose key never received a destination, in order;
/// an orphan with a destination is never deleted.
pub proof fn lemma_orphan_pass_deletes_exactly_unresolved(
    st0: PassState,
    pathnames: Seq<(Seq<u8>, Seq<u8>)>,
    orphans: Seq<Seq<u8>>,
)
    ensures
        orphan_pass(st0, pathnames, orphans).deleted == st0.deleted + unresolved_orphans(
            pathnames,
            orphans,
        ),
    decreases orphans.len(),
{
    reveal(Seq::filter);
    if orphans.len() == 0 {
        assert(st0.deleted + unresolved_orphans(pathnames, orphans) =~= st0.deleted);
    } else {
        let prefix = orphans.drop_last();
        let o = orphans.last();
        lemma_orphan_pass_deletes_exactly_unresolved(st0, pathnames, prefix);
        let stp = orphan_pass(st0, pathnames, prefix);
        if assoc_lookup(pathnames, orphan_asset_key(o)) is None {
            assert(orphan_step(stp, pathnames, o).deleted == stp.deleted.push(o));
            assert(unresolved_orphans(pathnames, orphans) == unresolved_orphans(
                pathnames,
                prefix,
            ).push(o));
            assert(st0.deleted + unresolved_orphans(pathnames, prefix).push(o) =~= (st0.deleted
                + unresolved_orphans(pathnames, prefix)).push(o));
        } else {
            assert(orphan_step(stp, pathnames, o).deleted == stp.deleted);
            assert(unresolved_orphans(pathnames, orphans) == unresolved_orphans(
                pathnames,
                prefix,
            ));
        }
    }
}

/// Over the whole orphan pass, the operations on the synchronous list and
/// on the queue together are exactly the initial ones plus every
/// operation the pass issued: none is dropped, duplicated or invented.
pub proof fn lemma_orphan_pass_places_all_issued(
    st0: PassState,
    pathnames: Seq<(Seq<u8>, Seq<u8>)>,
    orphans: Seq<Seq<u8>>,
)
    ensures
        ({
            let st1 = orphan_pass(st0, pathnames, orphans);
            st1.sync_ops.to_multiset().add(pending_ops(st1.pool.pending).to_multiset())
                =~= st0.sync_ops.to_multiset().add(
                pending_ops(st0.pool.pending).to_multiset(),
            ).add(orphan_issued(pathnames, orphans).to_multiset())
        }),
    decreases orphans.len(),
{
    broadcast use vstd::seq_lib::group_to_multiset_ensures;
    broadcast use vstd::multiset::group_multiset_axioms;

    let base = st0.sync_ops.to_multiset().add(pending_ops(st0.pool.pending).to_multiset());
    if orphans.len() == 0 {
        assert(orphan_issued(pathnames, orphans).to_multiset() =~= Multiset::<OpView>::empty());
        assert(base.add(Multiset::<OpView>::empty()) =~= base);
    } else {
        let prefix = orphans.drop_last();
        let o = orphans.last();
        lemma_orphan_pass_places_all_issued(st0, pathnames, prefix);
        let stp = orphan_pass(st0, pathnames, prefix);
        let st1 = orphan_step(stp, pathnames, o);
        assert(orphan_pass(st0, pathnames, orphans) == st1);
        let issued = orphan_issued_one(pathnames, o);
        assert(orphan_issued(pathnames, orphans) == orphan_issued(pathnames, prefix) + issued);
        vstd::seq_lib::lemma_multiset_commutative(orphan_issued(pathnames, prefix), issued);
        lemma_orphan_step_places_issued(stp, pathnames, o);
        let ip = orphan_issued(pathnames, prefix).to_multiset();
        let sp = stp.sync_ops.to_multiset();
        let pp = pending_ops(stp.pool.pending).to_multiset();
        assert(sp.add(pp) == base.add(ip));
        let s1 = st1.sync_ops.to_multiset();
        let p1 = pending_ops(st1.pool.pending).to_multiset();
        if issued.len() == 0 {
            assert(issued.to_multiset() =~= Multiset::<OpView>::empty());
            assert(s1.add(p1) == sp.add(pp));
            assert(ip.add(issued.to_multiset()) =~= ip);
            assert(s1.add(p1) =~= base.add(ip.add(issued.to_multiset())));
        } else {
            let x = issued[0];
            let estimate: int = if assoc_lookup(pathnames, orphan_asset_key(o)) is Some {
                1024
            } else {
                1
            };
            assert(issued =~= seq![issued[0]]);
            assert(issued.to_multiset() =~= Multiset::<OpView>::empty().insert(x));
            if st1.pool.pending == stp.pool.pending {
                assert(st1.sync_ops == stp.sync_ops.push(x));
                assert(s1 =~= sp.insert(x));
            } else {
                let t = TaskView { size: estimate, op: x };
                assert(st1.pool.pending == stp.pool.pending.push(t));
                assert(pending_ops(st1.pool.pending) =~= pending_ops(stp.pool.pending).push(x));
                assert(p1 =~= pp.insert(x));
            }
            assert(s1.add(p1) =~= sp.add(pp).insert(x));
            assert(base.add(ip.add(issued.to_multiset())) =~= base.add(ip).insert(x));
            assert(s1.add(p1) =~= base.add(ip.add(issued.to_multiset())));
        }
    }
}

/// The operation materializing one destination-table entry issues: the
/// sanitized directory creation when the asset is flagged as a folder
/// placeholder, nothing otherwise.
pub open spec fn folder_issued_one(
    folders: Seq<Seq<u8>>,
    asset_path: Seq<u8>,
    dest: Seq<u8>,
) -> Seq<OpView> {
    if seq_contains(folders, sibling_of(asset_path, meta_leaf())) {
        match sanitize_spec(dest) {
            Option::None => seq![],
            Option::Some(clean) => seq![OpView::MakeDirectory { path: clean }],
        }
    } else {
        seq![]
    }
}

/// All operations the folder pass issues, in table order.
pub open spec fn folder_issued(
    folders: Seq<Seq<u8>>,
    pathnames: Seq<(Seq<u8>, Seq<u8>)>,
) -> Seq<OpView>
    decreases pathnames.len(),
{
    if pathnames.len() == 0 {
        seq![]
    } else {
        folder_issued(folders, pathnames.drop_last()) + folder_issued_one(
            folders,
            pathnames.last().0,
            pathnames.last().1,
        )
    }
}

/// Each folder-pass step places the operation it issues exactly once, on
/// the queue under a minimal size or on the synchronous list.
pub proof fn lemma_folder_step_places_issued(
    st: PassState,
    folders: Seq<Seq<u8>>,
    asset_path: Seq<u8>,
    dest: Seq<u8>,
)
    ensures
        ({
            let st1 = folder_step(st, folders, asset_path, dest);
            let issued = folder_issued_one(folders, asset_path, dest);
            &&& issued.len() <= 1
            &&& (issued.len() == 0 ==> st1.pool.pending == st.pool.pending && st1.sync_ops
                == st.sync_ops)
            &&& (issued.len() == 1 ==> {
                ||| (st1.pool.pending == st.pool.pending && st1.sync_ops == st.sync_ops.push(
                    issued[0],
                ))
                ||| (st1.sync_ops == st.sync_ops && st1.pool.pending == st.pool.pending.push(
                    TaskView { size: 1, op: issued[0] },
                ))
            })
        }),
{
}

/// Over the whole folder pass, the operations on the synchronous list and
/// on the queue together are exactly the initial ones plus every
/// operation the pass issued.
pub proof fn lemma_folder_pass_places_all_issued(
    st0: PassState,
    folders: Seq<Seq<u8>>,
    pathnames: Seq<(Seq<u8>, Seq<u8>)>,
)
    ensures
        ({
            let st1 = folder_pass(st0, folders, pathnames);
            st1.sync_ops.to_multiset().add(pending_ops(st1.pool.pending).to_multiset())
                =~= st0.sync_ops.to_multiset().add(
                pending_ops(st0.pool.pending).to_multiset(),
            ).add(folder_issued(folders, pathnames).to_multiset())
        }),
    decreases pathnames.len(),
{
    broadcast use vstd::seq_lib::group_to_multiset_ensures;
    broadcast use vstd::multiset::group_multiset_axioms;

    let base = st0.sync_ops.to_multiset().add(pending_ops(st0.pool.pending).to_multiset());
    if pathnames.len() == 0 {
        assert(folder_issued(folders, pathnames).to_multiset() =~= Multiset::<OpView>::empty());
        assert(base.add(Multiset::<OpView>::empty()) =~= base);
    } else {
        let prefix = pathnames.drop_last();
        let e = pathnames.last();
        lemma_folder_pass_places_all_issued(st0, folders, prefix);
        let stp = folder_pass(st0, folders, prefix);
        let st1 = folder_step(stp, folders, e.0, e.1);
        assert(folder_pass(st0, folders, pathnames) == st1);
        let issued = folder_issued_one(folders, e.0, e.1);
        assert(folder_issued(folders, pathnames) == folder_issued(folders, prefix) + issued);
        vstd::seq_lib::lemma_multiset_commutative(folder_issued(folders, prefix), issued);
        lemma_folder_step_places_issued(stp, folders, e.0, e.1);
        let ip = folder_issued(folders, prefix).to_multiset();
        let sp = stp.sync_ops.to_multiset();
        let pp = pending_ops(stp.pool.pending).to_multiset();
        assert(sp.add(pp) == base.add(ip));
        let s1 = st1.sync_ops.to_multiset();
        let p1 = pending_ops(st1.pool.pending).to_multiset();
        if issued.len() == 0 {
            assert(issued.to_multiset() =~= Multiset::<OpView>::empty());
            assert(s1.add(p1) == sp.add(pp));
            assert(ip.add(issued.to_multiset()) =~= ip);
            assert(s1.add(p1) =~= base.add(ip.add(issued.to_multiset())));
        } else {
            let x = issued[0];
            assert(issued =~= seq![issued[0]]);
            assert(issued.to_multiset() =~= Multiset::<OpView>::empty().insert(x));
            if st1.pool.pending == stp.pool.pending {
                assert(st1.sync_ops == stp.sync_ops.push(x));
                assert(s1 =~= sp.insert(x));
            } else {
                let t = TaskView { size: 1, op: x };
                assert(st1.pool.pending == stp.pool.pending.push(t));
                assert(pending_ops(st1.pool.pending) =~= pending_ops(stp.pool.pending).push(x));
                assert(p1 =~= pp.insert(x));
            }
            assert(s1.add(p1) =~= sp.add(pp).insert(x));
            assert(base.add(ip.add(issued.to_multiset())) =~= base.add(ip).insert(x));
            assert(s1.add(p1) =~= base.add(ip.add(issued.to_multiset())));
        }
    }
}

// ---------------------------------------------------------------------------
// The central law: resolution is independent of entry order.
// ---------------------------------------------------------------------------

/// A metadata entry without the folder marker changes nothing.
proof fn lemma_meta_step_no_marker(st: ScanState, key: Seq<u8>, meta: Seq<u8>)
    requires
        key.len() > 0,
        forall|k: int| 0 <= k < key.len() ==> key[k] != 47u8,
        !has_folder_marker(meta),
    ensures
        scan_step(st, key + seq![47u8] + meta_leaf(), meta) == st,
{
    lemma_leaf_literals_no_slash();
    lemma_entry_parts(key, meta_leaf());
    assert(meta_leaf().len() == 10 && pathname_leaf().len() == 8);
}

/// A pathname entry records the destination for the sibling asset entry
/// and changes nothing else.
proof fn lemma_pathname_step(st: ScanState, key: Seq<u8>, dest: Seq<u8>)
    requires
        key.len() > 0,
        forall|k: int| 0 <= k < key.len() ==> key[k] != 47u8,
    ensures
        scan_step(st, key + seq![47u8] + pathname_leaf(), dest) == (ScanState {
            ctx: ContextView {
                pathnames: crate::archive_operations::assoc_insert(
                    st.ctx.pathnames,
                    orphan_asset_key(key),
                    dest,
                ),
                ..st.ctx
            },
            ..st
        }),
{
    lemma_leaf_literals_no_slash();
    lemma_entry_parts(key, pathname_leaf());
}

/// An asset entry whose destination is already in the table issues the
/// write there and leaves the context unchanged.
#[verifier::rlimit(30)]
proof fn lemma_asset_step_known(st: ScanState, key: Seq<u8>, data: Seq<u8>, dest: Seq<u8>)
    requires
        key.len() > 0,
        forall|k: int| 0 <= k < key.len() ==> key[k] != 47u8,
        assoc_lookup(st.ctx.pathnames, orphan_asset_key(key)) == Some(dest),
    ensures
        scan_step(st, orphan_asset_key(key), data).ctx == st.ctx,
        step_issued(st.ctx, orphan_asset_key(key), data) == route_issued(dest, data),
{
    lemma_leaf_literals_no_slash();
    lemma_entry_parts(key, asset_leaf());
    assert(meta_leaf().len() == 10 && pathname_leaf().len() == 8 && asset_leaf().len() == 5);
}

/// An asset entry whose destination is not yet known, with no folder flag,
/// records an orphan under the asset key and issues the write to the
/// temporary root-level name.
proof fn lemma_asset_step_orphan(st: ScanState, key: Seq<u8>, data: Seq<u8>)
    requires
        key.len() > 0,
        forall|k: int| 0 <= k < key.len() ==> key[k] != 47u8,
        assoc_lookup(st.ctx.pathnames, orphan_asset_key(key)) is None,
        !seq_contains(st.ctx.folders, key + seq![47u8] + meta_leaf()),
    ensures
        scan_step(st, orphan_asset_key(key), data).ctx == (ContextView {
            orphaned_assets: st.ctx.orphaned_assets.push(key),
            ..st.ctx
        }),
        step_issued(st.ctx, orphan_asset_key(key), data) == route_issued(key, data),
{
    lemma_leaf_literals_no_slash();
    lemma_entry_parts(key, asset_leaf());
    assert(meta_leaf().len() == 10 && pathname_leaf().len() == 8 && asset_leaf().len() == 5);
    assert(sibling_of(orphan_asset_key(key), meta_leaf()) == key + seq![47u8] + meta_leaf());
}

/// Creating a file and then nothing more leaves exactly that file.
proof fn lemma_apply_direct(sdest: Seq<u8>, data: Seq<u8>)
    ensures
        apply_ops(empty_fs(), seq![OpView::CreateFile { target: sdest, data: data }]).files
            =~= Map::<Seq<u8>, Seq<u8>>::empty().insert(sdest, data),
{
    let op = OpView::CreateFile { target: sdest, data: data };
    let ops = seq![op];
    assert(ops.first() == op);
    assert(ops.drop_first() =~= Seq::<OpView>::empty());
    let fs1 = apply_op(empty_fs(), op);
    assert(apply_ops(empty_fs(), ops) == apply_ops(fs1, ops.drop_first()));
    assert(apply_ops(fs1, ops.drop_first()) == fs1);
}

/// Creating the temporary file and then moving it to the destination
/// leaves exactly the destination file.
proof fn lemma_apply_deferred(key: Seq<u8>, sdest: Seq<u8>, data: Seq<u8>)
    ensures
        apply_ops(
            empty_fs(),
            seq![
                OpView::CreateFile { target: key, data: data },
                OpView::MoveFile { source: key, target: sdest },
            ],
        ).files =~= Map::<Seq<u8>, Seq<u8>>::empty().insert(sdest, data),
{
    let op1 = OpView::CreateFile { target: key, data: data };
    let op2 = OpView::MoveFile { source: key, target: sdest };
    let ops = seq![op1, op2];
    assert(ops.first() == op1);
    assert(ops.drop_first() =~= seq![op2]);
    let fs1 = apply_op(empty_fs(), op1);
    assert(fs1.files == Map::<Seq<u8>, Seq<u8>>::empty().insert(key, data));
    assert(fs1.files.dom().contains(key));
    assert(fs1.files[key] == data);
    let fs2 = apply_op(fs1, op2);
    assert(seq![op2].first() == op2);
    assert(seq![op2].drop_first() =~= Seq::<OpView>::empty());
    assert(fs2.files =~= Map::<Seq<u8>, Seq<u8>>::empty().insert(sdest, data)) by {
        assert(fs1.files.remove(key) =~= Map::<Seq<u8>, Seq<u8>>::empty());
    }
    assert(apply_ops(empty_fs(), ops) == apply_ops(fs1, ops.drop_first()));
    assert(apply_ops(fs1, seq![op2]) == apply_ops(fs2, seq![op2].drop_first()));
    assert(apply_ops(fs2, seq![op2].drop_first()) == fs2);
}

/// With no folder flags, the folder pass issues nothing.
proof fn lemma_folder_issued_empty_flags(pathnames: Seq<(Seq<u8>, Seq<u8>)>)
    ensures
        folder_issued(Seq::empty(), pathnames) =~= Seq::<OpView>::empty(),
    decreases pathnames.len(),
{
    if pathnames.len() > 0 {
        lemma_folder_issued_empty_flags(pathnames.drop_last());
        assert(!seq_contains(
            Seq::<Seq<u8>>::empty(),
            sibling_of(pathnames.last().0, meta_leaf()),
        ));
        assert(folder_issued(Seq::<Seq<u8>>::empty(), pathnames) =~= Seq::<OpView>::empty());
    }
}

/// The six admissible orders of one asset's three entries: payload,
/// metadata, destination, in any arrangement.
pub open spec fn is_order_of_asset_entries(
    entries: Seq<(Seq<u8>, Seq<u8>)>,
    key: Seq<u8>,
    data: Seq<u8>,
    meta: Seq<u8>,
    dest: Seq<u8>,
) -> bool {
    let ea = (orphan_asset_key(key), data);
    let em = (key + seq![47u8] + meta_leaf(), meta);
    let ep = (key + seq![47u8] + pathname_leaf(), dest);
    ||| entries == seq![ea, em, ep]
    ||| entries == seq![ea, ep, em]
    ||| entries == seq![em, ea, ep]
    ||| entries == seq![em, ep, ea]
    ||| entries == seq![ep, ea, em]
    ||| entries == seq![ep, em, ea]
}

/// Order independence of asset resolution. For an asset whose three
/// entries — payload, metadata without the folder marker, destination —
/// arrive in any of the six possible orders, the operations the run
/// issues — scan, then folder pass, then orphan pass — applied in issue
/// order to an empty filesystem, end with exactly one file: the original
/// bytes at the sanitized destination. And no orphan is left unresolved: every orphan
/// the scan recorded has a destination in the finished table.
///
/// The asset key must be a clean name — nonempty, slash-free, and its own
/// sanitization — since the orphan pass moves the temporary file from the
/// raw key while the scan wrote it to the sanitized key.
pub proof fn lemma_resolution_order_independent(
    st0: ScanState,
    key: Seq<u8>,
    data: Seq<u8>,
    meta: Seq<u8>,
    dest: Seq<u8>,
    entries: Seq<(Seq<u8>, Seq<u8>)>,
)
    requires
        st0.ctx.pathnames == Seq::<(Seq<u8>, Seq<u8>)>::empty(),
        st0.ctx.folders == Seq::<Seq<u8>>::empty(),
        st0.ctx.orphaned_assets == Seq::<Seq<u8>>::empty(),
        key.len() > 0,
        forall|k: int| 0 <= k < key.len() ==> key[k] != 47u8,
        sanitize_spec(key) == Some(key),
        sanitize_spec(dest) is Some,
        !has_folder_marker(meta),
        is_order_of_asset_entries(entries, key, data, meta, dest),
    ensures
        ({
            let st1 = scan_entries(st0, entries);
            let ops = scan_issued(st0, entries) + folder_issued(
                st1.ctx.folders,
                st1.ctx.pathnames,
            ) + orphan_issued(st1.ctx.pathnames, st1.ctx.orphaned_assets);
            let sdest = sanitize_spec(dest)->Some_0;
            &&& apply_ops(empty_fs(), ops).files == Map::<Seq<u8>, Seq<u8>>::empty().insert(
                sdest,
                data,
            )
            &&& forall|j: int|
                0 <= j < st1.ctx.orphaned_assets.len() ==> assoc_lookup(
                    st1.ctx.pathnames,
                    orphan_asset_key(#[trigger] st1.ctx.orphaned_assets[j]),
                ) is Some
        }),
{
    let ea = (orphan_asset_key(key), data);
    let em = (key + seq![47u8] + meta_leaf(), meta);
    let ep = (key + seq![47u8] + pathname_leaf(), dest);
    let apath = orphan_asset_key(key);
    let sdest = sanitize_spec(dest)->Some_0;
    let table = seq![(apath, dest)];
    let st1 = scan_entries(st0, entries);
    let direct_op = OpView::CreateFile { target: sdest, data: data };
    let orphan_op = OpView::CreateFile { target: key, data: data };
    let move_op = OpView::MoveFile { source: key, target: sdest };

    // Facts about the empty and the one-entry table.
    crate::archive_operations::lemma_assoc_find_props(
        Seq::<(Seq<u8>, Seq<u8>)>::empty(),
        apath,
    );
    assert(assoc_lookup(Seq::<(Seq<u8>, Seq<u8>)>::empty(), apath) is None);
    assert(crate::archive_operations::assoc_insert(
        Seq::<(Seq<u8>, Seq<u8>)>::empty(),
        apath,
        dest,
    ) =~= table);
    assert(table[0].0 == apath);
    assert(assoc_lookup(table, apath) == Some(dest));
    assert(!seq_contains(Seq::<Seq<u8>>::empty(), key + seq![47u8] + meta_leaf()));
    lemma_folder_issued_empty_flags(table);

    // The scan of each order, step by step.
    let e01 = entries.drop_last();
    let e0 = e01.drop_last();
    assert(entries.len() == 3);
    assert(e0 =~= seq![entries[0]]);
    assert(e01 =~= seq![entries[0], entries[1]]);
    assert(e0.drop_last() =~= Seq::<(Seq<u8>, Seq<u8>)>::empty());
    let s1 = scan_step(st0, entries[0].0, entries[0].1);
    let s2 = scan_step(s1, entries[1].0, entries[1].1);
    let s3 = scan_step(s2, entries[2].0, entries[2].1);
    assert(e0.last() == entries[0]);
    assert(e01.last() == entries[1]);
    assert(entries.last() == entries[2]);
    assert(scan_entries(st0, e0.drop_last()) == st0);
    assert(scan_entries(st0, e0) == s1);
    assert(scan_entries(st0, e01) == s2);
    assert(st1 == s3);
    let i1 = step_issued(st0.ctx, entries[0].0, entries[0].1);
    let i2 = step_issued(s1.ctx, entries[1].0, entries[1].1);
    let i3 = step_issued(s2.ctx, entries[2].0, entries[2].1);
    let issued = scan_issued(st0, entries);
    assert(scan_issued(st0, e0.drop_last()) == Seq::<OpView>::empty());
    assert(scan_issued(st0, e0) == scan_issued(st0, e0.drop_last()) + i1);
    assert(scan_issued(st0, e01) == scan_issued(st0, e0) + i2);
    assert(issued == scan_issued(st0, e01) + i3);
    assert(issued =~= i1 + i2 + i3);

    if entries == seq![ep, em, ea] {
        lemma_pathname_step(st0, key, dest);
        assert(s1.ctx.pathnames == table);
        lemma_meta_step_no_marker(s1, key, meta);
        assert(s2 == s1);
        lemma_asset_step_known(s2, key, data, dest);
        assert(s3.ctx.pathnames == table);
        assert(s3.ctx.orphaned_assets == Seq::<Seq<u8>>::empty());
        assert(step_issued(st0.ctx, ep.0, ep.1) =~= Seq::<OpView>::empty()) by {
            lemma_leaf_literals_no_slash();
            lemma_entry_parts(key, pathname_leaf());
        }
        assert(step_issued(s1.ctx, em.0, em.1) =~= Seq::<OpView>::empty()) by {
            lemma_leaf_literals_no_slash();
            lemma_entry_parts(key, meta_leaf());
        }
        assert(issued =~= seq![direct_op]);
        assert(orphan_issued(s3.ctx.pathnames, s3.ctx.orphaned_assets) =~= Seq::<OpView>::empty());
        assert(s3.ctx.folders =~= Seq::<Seq<u8>>::empty());
        assert(folder_issued(s3.ctx.folders, s3.ctx.pathnames) =~= Seq::<OpView>::empty());
        assert(issued + folder_issued(s3.ctx.folders, s3.ctx.pathnames) + orphan_issued(
            s3.ctx.pathnames,
            s3.ctx.orphaned_assets,
        ) =~= seq![direct_op]);
        lemma_apply_direct(sdest, data);
    } else if entries == seq![ep, ea, em] {
        lemma_pathname_step(st0, key, dest);
        assert(s1.ctx.pathnames == table);
        lemma_asset_step_known(s1, key, data, dest);
        assert(s2.ctx == s1.ctx);
        lemma_meta_step_no_marker(s2, key, meta);
        assert(s3 == s2);
        assert(s3.ctx.pathnames == table);
        assert(s3.ctx.orphaned_assets == Seq::<Seq<u8>>::empty());
        assert(step_issued(st0.ctx, ep.0, ep.1) =~= Seq::<OpView>::empty()) by {
            lemma_leaf_literals_no_slash();
            lemma_entry_parts(key, pathname_leaf());
        }
        assert(step_issued(s2.ctx, em.0, em.1) =~= Seq::<OpView>::empty()) by {
            lemma_leaf_literals_no_slash();
            lemma_entry_parts(key, meta_leaf());
        }
        assert(issued =~= seq![direct_op]);
        assert(s3.ctx.folders =~= Seq::<Seq<u8>>::empty());
        assert(folder_issued(s3.ctx.folders, s3.ctx.pathnames) =~= Seq::<OpView>::empty());
        assert(issued + folder_issued(s3.ctx.folders, s3.ctx.pathnames) + orphan_issued(
            s3.ctx.pathnames,
            s3.ctx.orphaned_assets,
        ) =~= seq![direct_op]);
        lemma_apply_direct(sdest, data);
    } else if entries == seq![em, ep, ea] {
        lemma_meta_step_no_marker(st0, key, meta);
        assert(s1 == st0);
        lemma_pathname_step(s1, key, dest);
        assert(s2.ctx.pathnames == table);
        lemma_asset_step_known(s2, key, data, dest);
        assert(s3.ctx.pathnames == table);
        assert(s3.ctx.orphaned_assets == Seq::<Seq<u8>>::empty());
        assert(step_issued(st0.ctx, em.0, em.1) =~= Seq::<OpView>::empty()) by {
            lemma_leaf_literals_no_slash();
            lemma_entry_parts(key, meta_leaf());
        }
        assert(step_issued(s1.ctx, ep.0, ep.1) =~= Seq::<OpView>::empty()) by {
            lemma_leaf_literals_no_slash();
            lemma_entry_parts(key, pathname_leaf());
        }
        assert(issued =~= seq![direct_op]);
        assert(s3.ctx.folders =~= Seq::<Seq<u8>>::empty());
        assert(folder_issued(s3.ctx.folders, s3.ctx.pathnames) =~= Seq::<OpView>::empty());
        assert(issued + folder_issued(s3.ctx.folders, s3.ctx.pathnames) + orphan_issued(
            s3.ctx.pathnames,
            s3.ctx.orphaned_assets,
        ) =~= seq![direct_op]);
        lemma_apply_direct(sdest, data);
    } else if entries == seq![ea, em, ep] {
        lemma_asset_step_orphan(st0, key, data);
        assert(s1.ctx.orphaned_assets == seq![key]);
        assert(s1.ctx.pathnames == Seq::<(Seq<u8>, Seq<u8>)>::empty());
        lemma_meta_step_no_marker(s1, key, meta);
        assert(s2 == s1);
        lemma_pathname_step(s2, key, dest);
        assert(s3.ctx.pathnames == table);
        assert(s3.ctx.orphaned_assets == seq![key]);
        assert(step_issued(st0.ctx, ea.0, ea.1) == route_issued(key, data));
        assert(step_issued(s1.ctx, em.0, em.1) =~= Seq::<OpView>::empty()) by {
            lemma_leaf_literals_no_slash();
            lemma_entry_parts(key, meta_leaf());
        }
        assert(step_issued(s2.ctx, ep.0, ep.1) =~= Seq::<OpView>::empty()) by {
            lemma_leaf_literals_no_slash();
            lemma_entry_parts(key, pathname_leaf());
        }
        assert(issued =~= seq![orphan_op]);
        assert(seq![key].drop_last() =~= Seq::<Seq<u8>>::empty());
        assert(orphan_issued(table, seq![key].drop_last()) == Seq::<OpView>::empty());
        assert(seq![key].last() == key);
        assert(orphan_issued_one(table, key) =~= seq![move_op]);
        assert(orphan_issued(table, seq![key]) == orphan_issued(table, seq![key].drop_last())
            + orphan_issued_one(table, key));
        assert(orphan_issued(table, seq![key]) =~= seq![move_op]);
        assert(s3.ctx.folders =~= Seq::<Seq<u8>>::empty());
        assert(folder_issued(s3.ctx.folders, s3.ctx.pathnames) =~= Seq::<OpView>::empty());
        assert(issued + folder_issued(s3.ctx.folders, s3.ctx.pathnames) + orphan_issued(
            s3.ctx.pathnames,
            s3.ctx.orphaned_assets,
        ) =~= seq![orphan_op, move_op]);
        lemma_apply_deferred(key, sdest, data);
    } else if entries == seq![ea, ep, em] {
        lemma_asset_step_orphan(st0, key, data);
        assert(s1.ctx.orphaned_assets == seq![key]);
        assert(s1.ctx.pathnames == Seq::<(Seq<u8>, Seq<u8>)>::empty());
        lemma_pathname_step(s1, key, dest);
        assert(s2.ctx.pathnames == table);
        assert(s2.ctx.orphaned_assets == seq![key]);
        lemma_meta_step_no_marker(s2, key, meta);
        assert(s3 == s2);
        assert(step_issued(st0.ctx, ea.0, ea.1) == route_issued(key, data));
        assert(step_issued(s1.ctx, ep.0, ep.1) =~= Seq::<OpView>::empty()) by {
            lemma_leaf_literals_no_slash();
            lemma_entry_parts(key, pathname_leaf());
        }
        assert(step_issued(s2.ctx, em.0, em.1) =~= Seq::<OpView>::empty()) by {
            lemma_leaf_literals_no_slash();
            lemma_entry_parts(key, meta_leaf());
        }
        assert(issued =~= seq![orphan_op]);
        assert(seq![key].drop_last() =~= Seq::<Seq<u8>>::empty());
        assert(orphan_issued(table, seq![key].drop_last()) == Seq::<OpView>::empty());
        assert(seq![key].last() == key);
        assert(orphan_issued_one(table, key) =~= seq![move_op]);
        assert(orphan_issued(table, seq![key]) == orphan_issued(table, seq![key].drop_last())
            + orphan_issued_one(table, key));
        assert(orphan_issued(table, seq![key]) =~= seq![move_op]);
        assert(s3.ctx.folders =~= Seq::<Seq<u8>>::empty());
        assert(folder_issued(s3.ctx.folders, s3.ctx.pathnames) =~= Seq::<OpView>::empty());
        assert(issued + folder_issued(s3.ctx.folders, s3.ctx.pathnames) + orphan_issued(
            s3.ctx.pathnames,
            s3.ctx.orphaned_assets,
        ) =~= seq![orphan_op, move_op]);
        lemma_apply_deferred(key, sdest, data);
    } else {
        assert(entries == seq![em, ea, ep]);
        lemma_meta_step_no_marker(st0, key, meta);
        assert(s1 == st0);
        lemma_asset_step_orphan(s1, key, data);
        assert(s2.ctx.orphaned_assets == seq![key]);
        assert(s2.ctx.pathnames == Seq::<(Seq<u8>, Seq<u8>)>::empty());
        lemma_pathname_step(s2, key, dest);
        assert(s3.ctx.pathnames == table);
        assert(s3.ctx.orphaned_assets == seq![key]);
        assert(step_issued(st0.ctx, em.0, em.1) =~= Seq::<OpView>::empty()) by {
            lemma_leaf_literals_no_slash();
            lemma_entry_parts(key, meta_leaf());
        }
        assert(step_issued(s1.ctx, ea.0, ea.1) == route_issued(key, data));
        assert(step_issued(s2.ctx, ep.0, ep.1) =~= Seq::<OpView>::empty()) by {
            lemma_leaf_literals_no_slash();
            lemma_entry_parts(key, pathname_leaf());
        }
        assert(issued =~= seq![orphan_op]);
        assert(seq![key].drop_last() =~= Seq::<Seq<u8>>::empty());
        assert(orphan_issued(table, seq![key].drop_last()) == Seq::<OpView>::empty());
        assert(seq![key].last() == key);
        assert(orphan_issued_one(table, key) =~= seq![move_op]);
        assert(orphan_issued(table, seq![key]) == orphan_issued(table, seq![key].drop_last())
            + orphan_issued_one(table, key));
        assert(orphan_issued(table, seq![key]) =~= seq![move_op]);
        assert(s3.ctx.folders =~= Seq::<Seq<u8>>::empty());
        assert(folder_issued(s3.ctx.folders, s3.ctx.pathnames) =~= Seq::<OpView>::empty());
        assert(issued + folder_issued(s3.ctx.folders, s3.ctx.pathnames) + orphan_issued(
            s3.ctx.pathnames,
            s3.ctx.orphaned_assets,
        ) =~= seq![orphan_op, move_op]);
        lemma_apply_deferred(key, sdest, data);
    }
}

} // verus!
