//! The two-pass asset-resolution engine.
//!
//! Pass 1 (`process_archive_entries`) walks the archive entries strictly in
//! stream order, classifying each by its trailing component: a `pathname`
//! entry records the asset's destination, an `asset.meta` entry may flag the
//! asset as a folder placeholder, and an `asset` entry carries the payload
//! and is routed — written to its known destination, written to a temporary
//! root-level name as an orphan when the destination is not yet known, or
//! skipped when the asset is a flagged folder placeholder. Every write is
//! further routed by size and memory budget: large payloads bypass the
//! budget and are executed synchronously; small ones are queued when the
//! budget admits them and fall back to synchronous execution when it does
//! not.
//!
//! Pass 2 (`process_orphaned_assets`) runs once the stream has ended, when
//! every destination that will ever appear is known: each orphan whose
//! destination showed up later is moved there; one without a destination is
//! deleted, with a warning recorded — the one legitimate data-loss path,
//! always observable. `create_folder_structures` materializes a directory
//! for every destination flagged as a folder placeholder.
//!
//! The whole engine is deterministic over the entry list; `scan_entries` is
//! its mathematical mirror, one `scan_step` per entry.

use vstd::prelude::*;
use vstd::pervasive::VecAdditionalExecFns;

use crate::paths::{
    asset_leaf, bytes_eq, extract_guid_from_path, get_leaf, guid_of, leaf_of, meta_leaf,
    pathname_leaf, sibling_entry, sibling_of,
};
use crate::file_operations::{
    create_directory_structure, create_file_with_content, delete_file, move_file_to_target,
};
use crate::sanitize_path::sanitize_spec;
use crate::thread_pool::{PoolModel, TaskView, ThreadPool};
use crate::write_ops::{AssetWriteError, OpView, WriteErrorKind, WriteOperation};

verus! {

// ---------------------------------------------------------------------------
// Association sequences: the destination table and the folder-flag set.
// ---------------------------------------------------------------------------

/// Index of the first pair in `pairs` whose key is `key`, or `-1`.
pub open spec fn assoc_find(pairs: Seq<(Seq<u8>, Seq<u8>)>, key: Seq<u8>) -> int
    decreases pairs.len(),
{
    if pairs.len() == 0 {
        -1
    } else if pairs[0].0 == key {
        0
    } else {
        let r = assoc_find(pairs.subrange(1, pairs.len() as int), key);
        if r == -1 {
            -1
        } else {
            r + 1
        }
    }
}

/// The value stored under `key`, if any.
pub open spec fn assoc_lookup(pairs: Seq<(Seq<u8>, Seq<u8>)>, key: Seq<u8>) -> Option<Seq<u8>> {
    if assoc_find(pairs, key) >= 0 {
        Some(pairs[assoc_find(pairs, key)].1)
    } else {
        None
    }
}

/// `pairs` with `key` now mapped to `value`: updated in place when the key
/// is present, appended otherwise.
pub open spec fn assoc_insert(
    pairs: Seq<(Seq<u8>, Seq<u8>)>,
    key: Seq<u8>,
    value: Seq<u8>,
) -> Seq<(Seq<u8>, Seq<u8>)> {
    if assoc_find(pairs, key) >= 0 {
        pairs.update(assoc_find(pairs, key), (key, value))
    } else {
        pairs.push((key, value))
    }
}

pub proof fn lemma_assoc_find_props(pairs: Seq<(Seq<u8>, Seq<u8>)>, key: Seq<u8>)
    ensures
        -1 <= assoc_find(pairs, key) < pairs.len(),
        assoc_find(pairs, key) >= 0 ==> pairs[assoc_find(pairs, key)].0 == key,
        forall|k: int| 0 <= k < pairs.len() && k < assoc_find(pairs, key) ==> (#[trigger] pairs[k]).0
            != key,
        assoc_find(pairs, key) == -1 ==> forall|k: int|
            0 <= k < pairs.len() ==> (#[trigger] pairs[k]).0 != key,
    decreases pairs.len(),
{
    if pairs.len() == 0 {
    } else if pairs[0].0 == key {
    } else {
        let sub = pairs.subrange(1, pairs.len() as int);
        lemma_assoc_find_props(sub, key);
        assert forall|k: int| 0 <= k < pairs.len() && k < assoc_find(pairs, key) implies (
        #[trigger] pairs[k]).0 != key by {
            if k > 0 {
                assert(pairs[k] == sub[k - 1]);
            }
        }
        if assoc_find(pairs, key) == -1 {
            assert forall|k: int| 0 <= k < pairs.len() implies (#[trigger] pairs[k]).0 != key by {
                if k > 0 {
                    assert(pairs[k] == sub[k - 1]);
                }
            }
        } else {
            assert(pairs[assoc_find(pairs, key)] == sub[assoc_find(pairs, key) - 1]);
        }
    }
}

proof fn lemma_assoc_find_at(pairs: Seq<(Seq<u8>, Seq<u8>)>, key: Seq<u8>, i: int)
    requires
        0 <= i < pairs.len(),
        pairs[i].0 == key,
        forall|k: int| 0 <= k < i ==> (#[trigger] pairs[k]).0 != key,
    ensures
        assoc_find(pairs, key) == i,
    decreases pairs.len(),
{
    if i == 0 {
    } else {
        let sub = pairs.subrange(1, pairs.len() as int);
        assert(pairs[0].0 != key);
        assert(sub[i - 1] == pairs[i]);
        assert forall|k: int| 0 <= k < i - 1 implies (#[trigger] sub[k]).0 != key by {
            assert(sub[k] == pairs[k + 1]);
        }
        lemma_assoc_find_at(sub, key, i - 1);
    }
}

proof fn lemma_assoc_find_none(pairs: Seq<(Seq<u8>, Seq<u8>)>, key: Seq<u8>)
    requires
        forall|k: int| 0 <= k < pairs.len() ==> (#[trigger] pairs[k]).0 != key,
    ensures
        assoc_find(pairs, key) == -1,
    decreases pairs.len(),
{
    if pairs.len() > 0 {
        let sub = pairs.subrange(1, pairs.len() as int);
        assert forall|k: int| 0 <= k < sub.len() implies (#[trigger] sub[k]).0 != key by {
            assert(sub[k] == pairs[k + 1]);
        }
        lemma_assoc_find_none(sub, key);
    }
}

/// Whether `x` is one of the byte strings in `s`.
pub open spec fn seq_contains(s: Seq<Seq<u8>>, x: Seq<u8>) -> bool {
    exists|k: int| 0 <= k < s.len() && s[k] == x
}

/// `s` with `x` present: unchanged when already there, appended otherwise.
pub open spec fn seq_set_insert(s: Seq<Seq<u8>>, x: Seq<u8>) -> Seq<Seq<u8>> {
    if seq_contains(s, x) {
        s
    } else {
        s.push(x)
    }
}

// ---------------------------------------------------------------------------
// The resolution context filled during the scan.
// ---------------------------------------------------------------------------

/// One destination-table entry: the asset entry name and the destination
/// path recorded for it.
pub struct PathnameEntry {
    pub asset_path: Vec<u8>,
    pub pathname: Vec<u8>,
}

impl View for PathnameEntry {
    type V = (Seq<u8>, Seq<u8>);

    open spec fn view(&self) -> (Seq<u8>, Seq<u8>) {
        (self.asset_path@, self.pathname@)
    }
}

/// Mathematical image of the resolution context.
pub ghost struct ContextView {
    /// Metadata entry names flagged as folder placeholders.
    pub folders: Seq<Seq<u8>>,
    /// The destination table: asset entry name to destination path, written
    /// only during the scan.
    pub pathnames: Seq<(Seq<u8>, Seq<u8>)>,
    /// Temporary root-level names of assets written before their
    /// destination was known, in the order they were written.
    pub orphaned_assets: Seq<Seq<u8>>,
    /// Payloads at least this large are streamed to disk, never buffered.
    pub stream_threshold: int,
}

/// Accumulates, during the single sequential scan, the destination table,
/// the folder-flag set and the orphan list.
pub struct ExtractionContext {
    folders: Vec<Vec<u8>>,
    pathnames: Vec<PathnameEntry>,
    orphaned_assets: Vec<Vec<u8>>,
    stream_threshold: u64,
}

impl View for ExtractionContext {
    type V = ContextView;

    closed spec fn view(&self) -> ContextView {
        ContextView {
            folders: self.folders@.map_values(|v: Vec<u8>| v@),
            pathnames: self.pathnames@.map_values(|e: PathnameEntry| e@),
            orphaned_assets: self.orphaned_assets@.map_values(|v: Vec<u8>| v@),
            stream_threshold: self.stream_threshold as int,
        }
    }
}

impl ExtractionContext {
    pub fn new(stream_threshold: u64) -> (r: ExtractionContext)
        ensures
            r@.folders =~= Seq::<Seq<u8>>::empty(),
            r@.pathnames =~= Seq::<(Seq<u8>, Seq<u8>)>::empty(),
            r@.orphaned_assets =~= Seq::<Seq<u8>>::empty(),
            r@.stream_threshold == stream_threshold,
    {
        ExtractionContext {
            folders: Vec::new(),
            pathnames: Vec::new(),
            orphaned_assets: Vec::new(),
            stream_threshold,
        }
    }

    /// Whether any orphan still awaits resolution.
    pub fn has_orphaned_work(&self) -> (r: bool)
        ensures
            r == (self@.orphaned_assets.len() > 0),
    {
        self.orphaned_assets.len() > 0
    }

    /// Flag the metadata entry name `path` as a folder placeholder.
    pub fn insert_folder(&mut self, path: Vec<u8>)
        ensures
            final(self)@.folders == seq_set_insert(old(self)@.folders, path@),
            final(self)@.pathnames == old(self)@.pathnames,
            final(self)@.orphaned_assets == old(self)@.orphaned_assets,
            final(self)@.stream_threshold == old(self)@.stream_threshold,
    {
        if !self.is_folder(path.as_slice()) {
            let ghost before = self@.folders;
            self.folders.push(path);
            proof {
                assert(self@.folders =~= before.push(path@));
            }
        }
    }

    /// Whether the metadata entry name `meta_path` is flagged as a folder
    /// placeholder.
    pub fn is_folder(&self, meta_path: &[u8]) -> (r: bool)
        ensures
            r == seq_contains(self@.folders, meta_path@),
    {
        let n = self.folders.len();
        let mut i: usize = 0;
        while i < n
            invariant
                0 <= i <= n,
                n == self@.folders.len(),
                forall|k: int| 0 <= k < i ==> self@.folders[k] != meta_path@,
            decreases n - i,
        {
            if bytes_eq(self.folders[i].as_slice(), meta_path) {
                proof {
                    assert(self@.folders[i as int] == meta_path@);
                }
                return true;
            }
            i += 1;
        }
        false
    }

    /// Record `pathname` as the destination of the asset entry
    /// `asset_path`, replacing any earlier record.
    pub fn insert_pathname(&mut self, asset_path: Vec<u8>, pathname: Vec<u8>)
        ensures
            final(self)@.pathnames == assoc_insert(old(self)@.pathnames, asset_path@, pathname@),
            final(self)@.folders == old(self)@.folders,
            final(self)@.orphaned_assets == old(self)@.orphaned_assets,
            final(self)@.stream_threshold == old(self)@.stream_threshold,
    {
        let ghost pairs = self@.pathnames;
        let n = self.pathnames.len();
        let mut i: usize = 0;
        while i < n
            invariant
                0 <= i <= n,
                n == pairs.len(),
                pairs == self@.pathnames,
                *self == *old(self),
                forall|k: int| 0 <= k < i ==> (#[trigger] pairs[k]).0 != asset_path@,
            decreases n - i,
        {
            if bytes_eq(self.pathnames[i].asset_path.as_slice(), asset_path.as_slice()) {
                proof {
                    lemma_assoc_find_at(pairs, asset_path@, i as int);
                }
                let ghost before = self@.pathnames;
                self.pathnames.set(i, PathnameEntry { asset_path, pathname });
                proof {
                    assert(self@.pathnames =~= assoc_insert(pairs, asset_path@, pathname@));
                }
                return ;
            }
            i += 1;
        }
        proof {
            lemma_assoc_find_none(pairs, asset_path@);
        }
        self.pathnames.push(PathnameEntry { asset_path, pathname });
        proof {
            assert(self@.pathnames =~= assoc_insert(pairs, asset_path@, pathname@));
        }
    }

    /// The destination recorded for the asset entry `asset_path`, if any.
    pub fn get_pathname(&self, asset_path: &[u8]) -> (r: Option<&Vec<u8>>)
        ensures
            match r {
                Some(v) => assoc_lookup(self@.pathnames, asset_path@) == Some(v@),
                None => assoc_lookup(self@.pathnames, asset_path@) is None,
            },
    {
        let ghost pairs = self@.pathnames;
        let n = self.pathnames.len();
        let mut i: usize = 0;
        while i < n
            invariant
                0 <= i <= n,
                n == pairs.len(),
                pairs == self@.pathnames,
                forall|k: int| 0 <= k < i ==> (#[trigger] pairs[k]).0 != asset_path@,
            decreases n - i,
        {
            if bytes_eq(self.pathnames[i].asset_path.as_slice(), asset_path) {
                proof {
                    lemma_assoc_find_at(pairs, asset_path@, i as int);
                }
                return Some(&self.pathnames[i].pathname);
            }
            i += 1;
        }
        proof {
            lemma_assoc_find_none(pairs, asset_path@);
        }
        None
    }

    /// Record that an orphaned asset was written to the temporary root-level
    /// name `asset_path`.
    pub fn add_orphaned_asset(&mut self, asset_path: Vec<u8>)
        ensures
            final(self)@.orphaned_assets == old(self)@.orphaned_assets.push(asset_path@),
            final(self)@.folders == old(self)@.folders,
            final(self)@.pathnames == old(self)@.pathnames,
            final(self)@.stream_threshold == old(self)@.stream_threshold,
    {
        let ghost before = self@.orphaned_assets;
        self.orphaned_assets.push(asset_path);
        proof {
            assert(self@.orphaned_assets =~= before.push(asset_path@));
        }
    }

    /// Split the finished context into the orphan list and the destination
    /// table for the post-scan passes.
    pub fn take_orphaned_data(self) -> (r: (Vec<Vec<u8>>, Vec<PathnameEntry>))
        ensures
            r.0@.map_values(|v: Vec<u8>| v@) == self@.orphaned_assets,
            r.1@.map_values(|e: PathnameEntry| e@) == self@.pathnames,
    {
        (self.orphaned_assets, self.pathnames)
    }

    /// How many orphans were recorded.
    pub fn orphaned_count(&self) -> (r: usize)
        ensures
            r == self@.orphaned_assets.len(),
    {
        self.orphaned_assets.len()
    }
}

// ---------------------------------------------------------------------------
// The folder-placeholder marker.
// ---------------------------------------------------------------------------

/// The marker line `folderAsset: yes` with its newline, as bytes.
pub open spec fn folder_marker() -> Seq<u8> {
    seq![
        102u8,
        111u8,
        108u8,
        100u8,
        101u8,
        114u8,
        65u8,
        115u8,
        115u8,
        101u8,
        116u8,
        58u8,
        32u8,
        121u8,
        101u8,
        115u8,
        10u8,
    ]
}

/// Whether the marker line occurs anywhere in `data`.
pub open spec fn has_folder_marker(data: Seq<u8>) -> bool {
    exists|i: int|
        0 <= i && i + folder_marker().len() <= data.len() && #[trigger] data.subrange(
            i,
            i + folder_marker().len(),
        ) == folder_marker()
}

/// Whether the metadata text `data` contains the folder-placeholder marker
/// line.
pub fn contains_folder_marker(data: &[u8]) -> (r: bool)
    ensures
        r == has_folder_marker(data@),
{
    let m: [u8; 17] = [102, 111, 108, 100, 101, 114, 65, 115, 115, 101, 116, 58, 32, 121, 101, 115, 10];
    proof {
        assert(m@ =~= folder_marker());
    }
    let n = data.len();
    if n < 17 {
        return false;
    }
    let mut i: usize = 0;
    while i <= n - 17
        invariant
            0 <= i <= n,
            n == data@.len(),
            n >= 17,
            m@ == folder_marker(),
            forall|j: int| 0 <= j < i ==> #[trigger] data@.subrange(j, j + 17) != folder_marker(),
        decreases n - i,
    {
        let mut k: usize = 0;
        while k < 17 && data[i + k] == m[k]
            invariant
                0 <= k <= 17,
                0 <= i,
                i + 17 <= n,
                n == data@.len(),
                m@ == folder_marker(),
                forall|t: int| 0 <= t < k ==> data@[i + t] == folder_marker()[t],
            decreases 17 - k,
        {
            k += 1;
        }
        if k == 17 {
            proof {
                assert(data@.subrange(i as int, i + 17) =~= folder_marker());
            }
            return true;
        }
        proof {
            assert(data@.subrange(i as int, i + 17)[k as int] == data@[i + k]);
            assert(data@.subrange(i as int, i + 17) != folder_marker());
        }
        i += 1;
    }
    proof {
        assert forall|j: int| 0 <= j && j + 17 <= n implies #[trigger] data@.subrange(j, j + 17)
            != folder_marker() by {
            assert(j < i);
        }
    }
    false
}

// ---------------------------------------------------------------------------
// The scan, specified: one step per archive entry.
// ---------------------------------------------------------------------------

/// One archive entry handed in by the container parser: its name and its
/// content, both raw bytes.
pub struct ArchiveEntry {
    pub path: Vec<u8>,
    pub data: Vec<u8>,
}

impl View for ArchiveEntry {
    type V = (Seq<u8>, Seq<u8>);

    open spec fn view(&self) -> (Seq<u8>, Seq<u8>) {
        (self.path@, self.data@)
    }
}

/// The views of a list of planned operations.
pub open spec fn ops_views(s: Seq<WriteOperation>) -> Seq<OpView> {
    s.map_values(|o: WriteOperation| o@)
}

/// The offending paths of a list of abandoned writes.
pub open spec fn failure_paths(s: Seq<AssetWriteError>) -> Seq<Seq<u8>> {
    s.map_values(|e: AssetWriteError| e.path@)
}

/// Every failure in `s` is a sanitizer rejection.
pub open spec fn all_path_rejections(s: Seq<AssetWriteError>) -> bool {
    forall|k: int| 0 <= k < s.len() ==> (#[trigger] s[k]).kind == WriteErrorKind::InvalidPath
}

/// The state the scan threads through its steps: the resolution context,
/// the pool, the operations executed synchronously so far (in order), and
/// the paths of the writes abandoned so far.
pub ghost struct ScanState {
    pub ctx: ContextView,
    pub pool: PoolModel,
    pub sync_ops: Seq<OpView>,
    pub failures: Seq<Seq<u8>>,
}

/// Route one write of `data` to the raw `target`: reject the write when the
/// sanitizer rejects the target; stream it synchronously when the payload
/// reaches the stream threshold, without touching the budget; otherwise
/// queue it when the budget admits its size and fall back to synchronous
/// execution when it does not. Returns the pool, the synchronous list and
/// the failure list after the write.
pub open spec fn route_write(
    pool: PoolModel,
    sync_ops: Seq<OpView>,
    failures: Seq<Seq<u8>>,
    stream_threshold: int,
    target: Seq<u8>,
    data: Seq<u8>,
) -> (PoolModel, Seq<OpView>, Seq<Seq<u8>>) {
    match sanitize_spec(target) {
        Option::None => (pool, sync_ops, failures.push(target)),
        Option::Some(clean) => {
            let op = OpView::CreateFile { target: clean, data: data };
            if data.len() >= stream_threshold {
                (pool, sync_ops.push(op), failures)
            } else if pool.used + data.len() <= pool.cap {
                (
                    PoolModel {
                        pending: pool.pending.push(TaskView { size: data.len() as int, op: op }),
                        used: pool.used + data.len(),
                        cap: pool.cap,
                    },
                    sync_ops,
                    failures,
                )
            } else {
                (pool, sync_ops.push(op), failures)
            }
        },
    }
}

/// What one `asset` entry does to the scan state: write to the known
/// destination, skip a flagged folder placeholder, or write as an orphan
/// under the asset key and record the orphan.
pub open spec fn asset_step(st: ScanState, path: Seq<u8>, data: Seq<u8>) -> ScanState {
    match assoc_lookup(st.ctx.pathnames, path) {
        Option::Some(dest) => {
            let r = route_write(
                st.pool,
                st.sync_ops,
                st.failures,
                st.ctx.stream_threshold,
                dest,
                data,
            );
            ScanState { ctx: st.ctx, pool: r.0, sync_ops: r.1, failures: r.2 }
        },
        Option::None => {
            if seq_contains(st.ctx.folders, sibling_of(path, meta_leaf())) {
                st
            } else {
                let g = guid_of(path);
                if g.len() == 0 {
                    ScanState { failures: st.failures.push(path), ..st }
                } else {
                    let ctx1 = ContextView {
                        orphaned_assets: st.ctx.orphaned_assets.push(g),
                        ..st.ctx
                    };
                    let r = route_write(
                        st.pool,
                        st.sync_ops,
                        st.failures,
                        st.ctx.stream_threshold,
                        g,
                        data,
                    );
                    ScanState { ctx: ctx1, pool: r.0, sync_ops: r.1, failures: r.2 }
                }
            }
        },
    }
}

/// What one archive entry does to the scan state, by its trailing
/// component: `pathname` records the sibling asset's destination,
/// `asset.meta` may flag a folder placeholder, `asset` is routed, and
/// everything else — directory entries included — is skipped.
pub open spec fn scan_step(st: ScanState, path: Seq<u8>, data: Seq<u8>) -> ScanState {
    let leaf = leaf_of(path);
    if leaf == pathname_leaf() {
        ScanState {
            ctx: ContextView {
                pathnames: assoc_insert(st.ctx.pathnames, sibling_of(path, asset_leaf()), data),
                ..st.ctx
            },
            ..st
        }
    } else if leaf == meta_leaf() {
        if has_folder_marker(data) {
            ScanState {
                ctx: ContextView { folders: seq_set_insert(st.ctx.folders, path), ..st.ctx },
                ..st
            }
        } else {
            st
        }
    } else if leaf == asset_leaf() {
        asset_step(st, path, data)
    } else {
        st
    }
}

/// The whole scan: `scan_step`, entry by entry, in stream order.
pub open spec fn scan_entries(st: ScanState, entries: Seq<(Seq<u8>, Seq<u8>)>) -> ScanState
    decreases entries.len(),
{
    if entries.len() == 0 {
        st
    } else {
        scan_step(
            scan_entries(st, entries.drop_last()),
            entries.last().0,
            entries.last().1,
        )
    }
}

/// The context a scan starts from.
pub open spec fn initial_context(stream_threshold: int) -> ContextView {
    ContextView {
        folders: Seq::empty(),
        pathnames: Seq::empty(),
        orphaned_assets: Seq::empty(),
        stream_threshold: stream_threshold,
    }
}

// ---------------------------------------------------------------------------
// The scan, executed.
// ---------------------------------------------------------------------------

/// What pass 1 hands back: the finished resolution context, the operations
/// that must be executed synchronously, in order, and the writes abandoned
/// on a sanitizer rejection.
pub struct ExtractionResult {
    pub context: ExtractionContext,
    pub sync_ops: Vec<WriteOperation>,
    pub failures: Vec<AssetWriteError>,
}

/// The literal `asset`.
fn asset_leaf_vec() -> (r: Vec<u8>)
    ensures
        r@ == asset_leaf(),
{
    let mut v: Vec<u8> = Vec::new();
    v.push(97);
    v.push(115);
    v.push(115);
    v.push(101);
    v.push(116);
    proof {
        assert(v@ =~= asset_leaf());
    }
    v
}

/// The literal `asset.meta`.
fn meta_leaf_vec() -> (r: Vec<u8>)
    ensures
        r@ == meta_leaf(),
{
    let mut v: Vec<u8> = Vec::new();
    v.push(97);
    v.push(115);
    v.push(115);
    v.push(101);
    v.push(116);
    v.push(46);
    v.push(109);
    v.push(101);
    v.push(116);
    v.push(97);
    proof {
        assert(v@ =~= meta_leaf());
    }
    v
}

/// The literal `pathname`.
fn pathname_leaf_vec() -> (r: Vec<u8>)
    ensures
        r@ == pathname_leaf(),
{
    let mut v: Vec<u8> = Vec::new();
    v.push(112);
    v.push(97);
    v.push(116);
    v.push(104);
    v.push(110);
    v.push(97);
    v.push(109);
    v.push(101);
    proof {
        assert(v@ =~= pathname_leaf());
    }
    v
}

/// Record a `pathname` entry: its text is the destination of the sibling
/// `asset` entry.
fn read_pathname(context: &mut ExtractionContext, path: Vec<u8>, data: Vec<u8>)
    ensures
        final(context)@.pathnames == assoc_insert(
            old(context)@.pathnames,
            sibling_of(path@, asset_leaf()),
            data@,
        ),
        final(context)@.folders == old(context)@.folders,
        final(context)@.orphaned_assets == old(context)@.orphaned_assets,
        final(context)@.stream_threshold == old(context)@.stream_threshold,
{
    let lit = asset_leaf_vec();
    let asset_path = sibling_entry(path.as_slice(), lit.as_slice());
    context.insert_pathname(asset_path, data);
}

/// Record an `asset.meta` entry: flag the asset as a folder placeholder
/// when its text holds the marker line.
fn read_metadata(context: &mut ExtractionContext, path: Vec<u8>, data: Vec<u8>)
    ensures
        final(context)@.folders == if has_folder_marker(data@) {
            seq_set_insert(old(context)@.folders, path@)
        } else {
            old(context)@.folders
        },
        final(context)@.pathnames == old(context)@.pathnames,
        final(context)@.orphaned_assets == old(context)@.orphaned_assets,
        final(context)@.stream_threshold == old(context)@.stream_threshold,
{
    if contains_folder_marker(data.as_slice()) {
        context.insert_folder(path);
    }
}

/// Plan one write of `data` to the raw `target` and route it by size and
/// budget, exactly as `route_write` says.
fn route_asset_write(
    stream_threshold: u64,
    thread_pool: &mut ThreadPool,
    target: Vec<u8>,
    data: Vec<u8>,
    sync_ops: &mut Vec<WriteOperation>,
    failures: &mut Vec<AssetWriteError>,
)
    requires
        old(thread_pool).wf(),
        all_path_rejections(old(failures)@),
    ensures
        final(thread_pool).wf(),
        final(thread_pool).cap() == old(thread_pool).cap(),
        final(thread_pool).workers() == old(thread_pool).workers(),
        all_path_rejections(final(failures)@),
        ({
            let r = route_write(
                old(thread_pool).model(),
                ops_views(old(sync_ops)@),
                failure_paths(old(failures)@),
                stream_threshold as int,
                target@,
                data@,
            );
            &&& final(thread_pool).model() == r.0
            &&& ops_views(final(sync_ops)@) == r.1
            &&& failure_paths(final(failures)@) == r.2
        }),
{
    let asset_size: u64 = data.len() as u64;
    match create_file_with_content(data, target.as_slice()) {
        Ok(op) => {
            if asset_size >= stream_threshold {
                let ghost before = sync_ops@;
                let ghost opv = op@;
                sync_ops.push(op);
                proof {
                    assert(ops_views(sync_ops@) =~= ops_views(before).push(opv));
                }
            } else {
                match thread_pool.try_queue_task(asset_size, op) {
                    Option::None => {
                    },
                    Option::Some(refused) => {
                        let ghost before = sync_ops@;
                        let ghost opv = refused@;
                        sync_ops.push(refused);
                        proof {
                            assert(ops_views(sync_ops@) =~= ops_views(before).push(opv));
                        }
                    },
                }
            }
        },
        Err(e) => {
            let ghost before = failures@;
            let ghost pv = e.path@;
            failures.push(e);
            proof {
                assert(failure_paths(failures@) =~= failure_paths(before).push(pv));
            }
        },
    }
}

/// Handle one `asset` entry: write it to its recorded destination, skip it
/// as a folder placeholder, or write it as an orphan under its asset key
/// and record the orphan.
fn read_asset(
    context: &mut ExtractionContext,
    thread_pool: &mut ThreadPool,
    path: Vec<u8>,
    data: Vec<u8>,
    sync_ops: &mut Vec<WriteOperation>,
    failures: &mut Vec<AssetWriteError>,
)
    requires
        old(thread_pool).wf(),
        all_path_rejections(old(failures)@),
    ensures
        final(thread_pool).wf(),
        final(thread_pool).cap() == old(thread_pool).cap(),
        final(thread_pool).workers() == old(thread_pool).workers(),
        all_path_rejections(final(failures)@),
        ({
            let st0 = ScanState {
                ctx: old(context)@,
                pool: old(thread_pool).model(),
                sync_ops: ops_views(old(sync_ops)@),
                failures: failure_paths(old(failures)@),
            };
            let st1 = asset_step(st0, path@, data@);
            &&& final(context)@ == st1.ctx
            &&& final(thread_pool).model() == st1.pool
            &&& ops_views(final(sync_ops)@) == st1.sync_ops
            &&& failure_paths(final(failures)@) == st1.failures
        }),
{
    let stream_threshold = context.stream_threshold;

    let mut target_opt: Option<Vec<u8>> = None;
    match context.get_pathname(path.as_slice()) {
        Option::Some(pathname) => {
            target_opt = Some(vstd::slice::slice_to_vec(pathname.as_slice()));
        },
        Option::None => {
        },
    }

    match target_opt {
        Option::Some(target) => {
            route_asset_write(stream_threshold, thread_pool, target, data, sync_ops, failures);
        },
        Option::None => {
            let lit = meta_leaf_vec();
            let meta_path = sibling_entry(path.as_slice(), lit.as_slice());
            if context.is_folder(meta_path.as_slice()) {
                // A folder placeholder has no payload worth relocating.
            } else {
                let orphan_name = extract_guid_from_path(path.as_slice());
                if orphan_name.len() == 0 {
                    // No parent directory to derive an orphan name from:
                    // abandon this write, never the run.
                    let ghost before = failures@;
                    let ghost pv = path@;
                    failures.push(AssetWriteError { path, kind: WriteErrorKind::InvalidPath });
                    proof {
                        assert(failure_paths(failures@) =~= failure_paths(before).push(pv));
                    }
                } else {
                    context.add_orphaned_asset(
                        vstd::slice::slice_to_vec(orphan_name.as_slice()),
                    );
                    route_asset_write(
                        stream_threshold,
                        thread_pool,
                        orphan_name,
                        data,
                        sync_ops,
                        failures,
                    );
                }
            }
        },
    }
}

/// Handle one archive entry, dispatching on its trailing component exactly
/// as `scan_step` says.
pub fn process_entry(
    context: &mut ExtractionContext,
    thread_pool: &mut ThreadPool,
    entry: ArchiveEntry,
    sync_ops: &mut Vec<WriteOperation>,
    failures: &mut Vec<AssetWriteError>,
)
    requires
        old(thread_pool).wf(),
        all_path_rejections(old(failures)@),
    ensures
        final(thread_pool).wf(),
        final(thread_pool).cap() == old(thread_pool).cap(),
        final(thread_pool).workers() == old(thread_pool).workers(),
        all_path_rejections(final(failures)@),
        ({
            let st0 = ScanState {
                ctx: old(context)@,
                pool: old(thread_pool).model(),
                sync_ops: ops_views(old(sync_ops)@),
                failures: failure_paths(old(failures)@),
            };
            let st1 = scan_step(st0, entry.path@, entry.data@);
            &&& final(context)@ == st1.ctx
            &&& final(thread_pool).model() == st1.pool
            &&& ops_views(final(sync_ops)@) == st1.sync_ops
            &&& failure_paths(final(failures)@) == st1.failures
        }),
{
    let ArchiveEntry { path, data } = entry;

    let lit_pathname = pathname_leaf_vec();
    let lit_meta = meta_leaf_vec();
    let lit_asset = asset_leaf_vec();

    let is_pathname = bytes_eq(get_leaf(path.as_slice()), lit_pathname.as_slice());
    let is_meta = bytes_eq(get_leaf(path.as_slice()), lit_meta.as_slice());
    let is_asset = bytes_eq(get_leaf(path.as_slice()), lit_asset.as_slice());
    if is_pathname {
        read_pathname(context, path, data);
    } else if is_meta {
        read_metadata(context, path, data);
    } else if is_asset {
        read_asset(context, thread_pool, path, data, sync_ops, failures);
    } else {
        // Directory entries and unrecognized names are skipped.
    }
}

/// Pass 1: consume the archive entries strictly in stream order, fill the
/// resolution context, and dispatch every asset write through the
/// admission-gated pool or the synchronous list — the executed scan is
/// exactly `scan_entries` over the entry views.
pub fn process_archive_entries(
    entries: &Vec<ArchiveEntry>,
    thread_pool: &mut ThreadPool,
    stream_threshold: u64,
) -> (r: ExtractionResult)
    requires
        old(thread_pool).wf(),
    ensures
        final(thread_pool).wf(),
        final(thread_pool).cap() == old(thread_pool).cap(),
        final(thread_pool).workers() == old(thread_pool).workers(),
        all_path_rejections(r.failures@),
        ({
            let st0 = ScanState {
                ctx: initial_context(stream_threshold as int),
                pool: old(thread_pool).model(),
                sync_ops: Seq::empty(),
                failures: Seq::empty(),
            };
            let st1 = scan_entries(st0, entries@.map_values(|e: ArchiveEntry| e@));
            &&& r.context@ == st1.ctx
            &&& final(thread_pool).model() == st1.pool
            &&& ops_views(r.sync_ops@) == st1.sync_ops
            &&& failure_paths(r.failures@) == st1.failures
        }),
{
    let mut context = ExtractionContext::new(stream_threshold);
    let mut sync_ops: Vec<WriteOperation> = Vec::new();
    let mut failures: Vec<AssetWriteError> = Vec::new();

    let ghost evs = entries@.map_values(|e: ArchiveEntry| e@);
    let ghost st0 = ScanState {
        ctx: initial_context(stream_threshold as int),
        pool: old(thread_pool).model(),
        sync_ops: Seq::empty(),
        failures: Seq::empty(),
    };
    proof {
        assert(context@ == st0.ctx);
        assert(ops_views(sync_ops@) =~= Seq::<OpView>::empty());
        assert(failure_paths(failures@) =~= Seq::<Seq<u8>>::empty());
        assert(evs.subrange(0, 0) =~= Seq::<(Seq<u8>, Seq<u8>)>::empty());
    }

    let n = entries.len();
    let mut i: usize = 0;
    while i < n
        invariant
            0 <= i <= n,
            n == entries@.len(),
            evs == entries@.map_values(|e: ArchiveEntry| e@),
            st0 == (ScanState {
                ctx: initial_context(stream_threshold as int),
                pool: old(thread_pool).model(),
                sync_ops: Seq::<OpView>::empty(),
                failures: Seq::<Seq<u8>>::empty(),
            }),
            thread_pool.wf(),
            thread_pool.cap() == old(thread_pool).cap(),
            thread_pool.workers() == old(thread_pool).workers(),
            all_path_rejections(failures@),
            ({
                let sti = scan_entries(st0, evs.subrange(0, i as int));
                &&& context@ == sti.ctx
                &&& thread_pool.model() == sti.pool
                &&& ops_views(sync_ops@) == sti.sync_ops
                &&& failure_paths(failures@) == sti.failures
            }),
        decreases n - i,
    {
        let path = vstd::slice::slice_to_vec(entries[i].path.as_slice());
        let data = vstd::slice::slice_to_vec(entries[i].data.as_slice());
        let entry = ArchiveEntry { path, data };
        proof {
            assert(entry@ == evs[i as int]);
        }
        process_entry(&mut context, thread_pool, entry, &mut sync_ops, &mut failures);
        proof {
            assert(evs.subrange(0, i + 1).drop_last() =~= evs.subrange(0, i as int));
            assert(evs.subrange(0, i + 1).last() == evs[i as int]);
        }
        i += 1;
    }
    proof {
        assert(evs.subrange(0, n as int) =~= evs);
    }

    ExtractionResult { context, sync_ops, failures }
}

// ---------------------------------------------------------------------------
// Pass 2: orphan resolution, and folder materialization.
// ---------------------------------------------------------------------------

/// Nominal size estimate, in bytes, for a queued orphan move: the true size
/// was not retained past the scan.
const KB: u64 = 1024;

/// The views of a list of deleted orphan names.
pub open spec fn deleted_views(s: Seq<Vec<u8>>) -> Seq<Seq<u8>> {
    s.map_values(|v: Vec<u8>| v@)
}

/// The state a post-scan pass threads through its steps.
pub ghost struct PassState {
    pub pool: PoolModel,
    pub sync_ops: Seq<OpView>,
    /// Orphans deleted for want of a destination, each with a warning
    /// recorded — never silent.
    pub deleted: Seq<Seq<u8>>,
    pub failures: Seq<Seq<u8>>,
}

/// The `asset` entry name an orphan was keyed under during the scan.
pub open spec fn orphan_asset_key(orphan: Seq<u8>) -> Seq<u8> {
    orphan + seq![47u8] + asset_leaf()
}

/// What resolving one orphan does: when the destination table now holds an
/// entry for its key, move the temporary file to the sanitized destination,
/// queued under a nominal one-kilobyte estimate or executed synchronously
/// when the budget refuses; otherwise delete the temporary file and record
/// a warning.
pub open spec fn orphan_step(
    st: PassState,
    pathnames: Seq<(Seq<u8>, Seq<u8>)>,
    orphan: Seq<u8>,
) -> PassState {
    match assoc_lookup(pathnames, orphan_asset_key(orphan)) {
        Option::Some(dest) => {
            match sanitize_spec(dest) {
                Option::None => PassState { failures: st.failures.push(dest), ..st },
                Option::Some(clean) => {
                    let op = OpView::MoveFile { source: orphan, target: clean };
                    if st.pool.used + 1024 <= st.pool.cap {
                        PassState {
                            pool: PoolModel {
                                pending: st.pool.pending.push(TaskView { size: 1024, op: op }),
                                used: st.pool.used + 1024,
                                cap: st.pool.cap,
                            },
                            ..st
                        }
                    } else {
                        PassState { sync_ops: st.sync_ops.push(op), ..st }
                    }
                },
            }
        },
        Option::None => {
            let op = OpView::DeleteFile { path: orphan };
            if st.pool.used + 1 <= st.pool.cap {
                PassState {
                    pool: PoolModel {
                        pending: st.pool.pending.push(TaskView { size: 1, op: op }),
                        used: st.pool.used + 1,
                        cap: st.pool.cap,
                    },
                    deleted: st.deleted.push(orphan),
                    ..st
                }
            } else {
                PassState {
                    sync_ops: st.sync_ops.push(op),
                    deleted: st.deleted.push(orphan),
                    ..st
                }
            }
        },
    }
}

/// The whole orphan pass: `orphan_step`, orphan by orphan, in the order
/// they were recorded.
pub open spec fn orphan_pass(
    st: PassState,
    pathnames: Seq<(Seq<u8>, Seq<u8>)>,
    orphans: Seq<Seq<u8>>,
) -> PassState
    decreases orphans.len(),
{
    if orphans.len() == 0 {
        st
    } else {
        orphan_step(orphan_pass(st, pathnames, orphans.drop_last()), pathnames, orphans.last())
    }
}

/// What one destination-table entry does in the folder pass: when the
/// asset is flagged as a folder placeholder, create the sanitized
/// destination directory, queued under a minimal size or executed
/// synchronously when the budget refuses.
pub open spec fn folder_step(
    st: PassState,
    folders: Seq<Seq<u8>>,
    asset_path: Seq<u8>,
    dest: Seq<u8>,
) -> PassState {
    if seq_contains(folders, sibling_of(asset_path, meta_leaf())) {
        match sanitize_spec(dest) {
            Option::None => PassState { failures: st.failures.push(dest), ..st },
            Option::Some(clean) => {
                let op = OpView::MakeDirectory { path: clean };
                if st.pool.used + 1 <= st.pool.cap {
                    PassState {
                        pool: PoolModel {
                            pending: st.pool.pending.push(TaskView { size: 1, op: op }),
                            used: st.pool.used + 1,
                            cap: st.pool.cap,
                        },
                        ..st
                    }
                } else {
                    PassState { sync_ops: st.sync_ops.push(op), ..st }
                }
            },
        }
    } else {
        st
    }
}

/// The whole folder pass: `folder_step` over the destination table, in
/// table order.
pub open spec fn folder_pass(
    st: PassState,
    folders: Seq<Seq<u8>>,
    pathnames: Seq<(Seq<u8>, Seq<u8>)>,
) -> PassState
    decreases pathnames.len(),
{
    if pathnames.len() == 0 {
        st
    } else {
        folder_step(
            folder_pass(st, folders, pathnames.drop_last()),
            folders,
            pathnames.last().0,
            pathnames.last().1,
        )
    }
}

/// What the orphan pass hands back: the operations to execute
/// synchronously, the orphans deleted for want of a destination — each one
/// a recorded warning — and the writes abandoned on a sanitizer rejection.
pub struct OrphanOutcome {
    pub sync_ops: Vec<WriteOperation>,
    pub deleted: Vec<Vec<u8>>,
    pub failures: Vec<AssetWriteError>,
}

/// What the folder pass hands back.
pub struct FolderOutcome {
    pub sync_ops: Vec<WriteOperation>,
    pub failures: Vec<AssetWriteError>,
}

/// The `asset` entry name an orphan was keyed under.
fn orphan_asset_entry(orphan: &[u8]) -> (r: Vec<u8>)
    ensures
        r@ == orphan_asset_key(orphan@),
{
    let mut r = vstd::slice::slice_to_vec(orphan);
    r.push(47);
    r.push(97);
    r.push(115);
    r.push(115);
    r.push(101);
    r.push(116);
    proof {
        assert(r@ =~= orphan_asset_key(orphan@));
    }
    r
}

/// Pass 2: resolve every orphan against the finished destination table,
/// exactly as `orphan_pass` says — a move for each orphan whose
/// destination appeared later in the stream, a deletion with a recorded
/// warning for each orphan that never got one.
pub fn process_orphaned_assets(context: ExtractionContext, thread_pool: &mut ThreadPool) -> (r:
    OrphanOutcome)
    requires
        old(thread_pool).wf(),
    ensures
        final(thread_pool).wf(),
        final(thread_pool).cap() == old(thread_pool).cap(),
        final(thread_pool).workers() == old(thread_pool).workers(),
        all_path_rejections(r.failures@),
        ({
            let st0 = PassState {
                pool: old(thread_pool).model(),
                sync_ops: Seq::empty(),
                deleted: Seq::empty(),
                failures: Seq::empty(),
            };
            let st1 = orphan_pass(st0, context@.pathnames, context@.orphaned_assets);
            &&& final(thread_pool).model() == st1.pool
            &&& ops_views(r.sync_ops@) == st1.sync_ops
            &&& deleted_views(r.deleted@) == st1.deleted
            &&& failure_paths(r.failures@) == st1.failures
        }),
{
    let mut sync_ops: Vec<WriteOperation> = Vec::new();
    let mut deleted: Vec<Vec<u8>> = Vec::new();
    let mut failures: Vec<AssetWriteError> = Vec::new();

    let ghost pathnames = context@.pathnames;
    let ghost orphans = context@.orphaned_assets;
    let ghost st0 = PassState {
        pool: old(thread_pool).model(),
        sync_ops: Seq::empty(),
        deleted: Seq::empty(),
        failures: Seq::empty(),
    };
    proof {
        assert(ops_views(sync_ops@) =~= Seq::<OpView>::empty());
        assert(deleted_views(deleted@) =~= Seq::<Seq<u8>>::empty());
        assert(failure_paths(failures@) =~= Seq::<Seq<u8>>::empty());
        assert(orphans.subrange(0, 0) =~= Seq::<Seq<u8>>::empty());
    }

    let n = context.orphaned_assets.len();
    let mut i: usize = 0;
    while i < n
        invariant
            0 <= i <= n,
            n == orphans.len(),
            pathnames == context@.pathnames,
            orphans == context@.orphaned_assets,
            st0 == (PassState {
                pool: old(thread_pool).model(),
                sync_ops: Seq::<OpView>::empty(),
                deleted: Seq::<Seq<u8>>::empty(),
                failures: Seq::<Seq<u8>>::empty(),
            }),
            thread_pool.wf(),
            thread_pool.cap() == old(thread_pool).cap(),
            thread_pool.workers() == old(thread_pool).workers(),
            all_path_rejections(failures@),
            ({
                let sti = orphan_pass(st0, pathnames, orphans.subrange(0, i as int));
                &&& thread_pool.model() == sti.pool
                &&& ops_views(sync_ops@) == sti.sync_ops
                &&& deleted_views(deleted@) == sti.deleted
                &&& failure_paths(failures@) == sti.failures
            }),
        decreases n - i,
    {
        let orphan = vstd::slice::slice_to_vec(context.orphaned_assets[i].as_slice());
        proof {
            assert(orphan@ == orphans[i as int]);
        }
        let key = orphan_asset_entry(orphan.as_slice());

        let mut dest_opt: Option<Vec<u8>> = None;
        match context.get_pathname(key.as_slice()) {
            Option::Some(dest) => {
                dest_opt = Some(vstd::slice::slice_to_vec(dest.as_slice()));
            },
            Option::None => {
            },
        }

        match dest_opt {
            Option::Some(dest) => {
                match move_file_to_target(orphan.as_slice(), dest.as_slice()) {
                    Ok(op) => {
                        match thread_pool.try_queue_task(KB, op) {
                            Option::None => {
                            },
                            Option::Some(refused) => {
                                let ghost before = sync_ops@;
                                let ghost opv = refused@;
                                sync_ops.push(refused);
                                proof {
                                    assert(ops_views(sync_ops@) =~= ops_views(before).push(opv));
                                }
                            },
                        }
                    },
                    Err(e) => {
                        let ghost before = failures@;
                        let ghost pv = e.path@;
                        failures.push(e);
                        proof {
                            assert(failure_paths(failures@) =~= failure_paths(before).push(pv));
                        }
                    },
                }
            },
            Option::None => {
                let ghost before_del = deleted@;
                deleted.push(vstd::slice::slice_to_vec(orphan.as_slice()));
                proof {
                    assert(deleted_views(deleted@) =~= deleted_views(before_del).push(orphan@));
                }
                let op = delete_file(orphan.as_slice());
                match thread_pool.try_queue_task(1, op) {
                    Option::None => {
                    },
                    Option::Some(refused) => {
                        let ghost before = sync_ops@;
                        let ghost opv = refused@;
                        sync_ops.push(refused);
                        proof {
                            assert(ops_views(sync_ops@) =~= ops_views(before).push(opv));
                        }
                    },
                }
            },
        }
        proof {
            assert(orphans.subrange(0, i + 1).drop_last() =~= orphans.subrange(0, i as int));
            assert(orphans.subrange(0, i + 1).last() == orphans[i as int]);
        }
        i += 1;
    }
    proof {
        assert(orphans.subrange(0, n as int) =~= orphans);
    }

    OrphanOutcome { sync_ops, deleted, failures }
}

/// Create a directory for every destination whose asset is flagged as a
/// folder placeholder, exactly as `folder_pass` says.
pub fn create_folder_structures(context: &ExtractionContext, thread_pool: &mut ThreadPool) -> (r:
    FolderOutcome)
    requires
        old(thread_pool).wf(),
    ensures
        final(thread_pool).wf(),
        final(thread_pool).cap() == old(thread_pool).cap(),
        final(thread_pool).workers() == old(thread_pool).workers(),
        all_path_rejections(r.failures@),
        ({
            let st0 = PassState {
                pool: old(thread_pool).model(),
                sync_ops: Seq::empty(),
                deleted: Seq::empty(),
                failures: Seq::empty(),
            };
            let st1 = folder_pass(st0, context@.folders, context@.pathnames);
            &&& final(thread_pool).model() == st1.pool
            &&& ops_views(r.sync_ops@) == st1.sync_ops
            &&& failure_paths(r.failures@) == st1.failures
        }),
{
    let mut sync_ops: Vec<WriteOperation> = Vec::new();
    let mut failures: Vec<AssetWriteError> = Vec::new();

    let ghost folders = context@.folders;
    let ghost pathnames = context@.pathnames;
    let ghost st0 = PassState {
        pool: old(thread_pool).model(),
        sync_ops: Seq::empty(),
        deleted: Seq::empty(),
        failures: Seq::empty(),
    };
    proof {
        assert(ops_views(sync_ops@) =~= Seq::<OpView>::empty());
        assert(failure_paths(failures@) =~= Seq::<Seq<u8>>::empty());
        assert(pathnames.subrange(0, 0) =~= Seq::<(Seq<u8>, Seq<u8>)>::empty());
    }

    let n = context.pathnames.len();
    let mut i: usize = 0;
    while i < n
        invariant
            0 <= i <= n,
            n == pathnames.len(),
            folders == context@.folders,
            pathnames == context@.pathnames,
            st0 == (PassState {
                pool: old(thread_pool).model(),
                sync_ops: Seq::<OpView>::empty(),
                deleted: Seq::<Seq<u8>>::empty(),
                failures: Seq::<Seq<u8>>::empty(),
            }),
            thread_pool.wf(),
            thread_pool.cap() == old(thread_pool).cap(),
            thread_pool.workers() == old(thread_pool).workers(),
            all_path_rejections(failures@),
            ({
                let sti = folder_pass(st0, folders, pathnames.subrange(0, i as int));
                &&& thread_pool.model() == sti.pool
                &&& ops_views(sync_ops@) == sti.sync_ops
                &&& failure_paths(failures@) == sti.failures
            }),
        decreases n - i,
    {
        let lit = meta_leaf_vec();
        let meta_path = sibling_entry(context.pathnames[i].asset_path.as_slice(), lit.as_slice());
        proof {
            assert(pathnames[i as int].0 == context.pathnames@[i as int].asset_path@);
            assert(pathnames[i as int].1 == context.pathnames@[i as int].pathname@);
        }
        if context.is_folder(meta_path.as_slice()) {
            let dest = vstd::slice::slice_to_vec(context.pathnames[i].pathname.as_slice());
            match create_directory_structure(dest.as_slice()) {
                Ok(op) => {
                    match thread_pool.try_queue_task(1, op) {
                        Option::None => {
                        },
                        Option::Some(refused) => {
                            let ghost before = sync_ops@;
                            let ghost opv = refused@;
                            sync_ops.push(refused);
                            proof {
                                assert(ops_views(sync_ops@) =~= ops_views(before).push(opv));
                            }
                        },
                    }
                },
                Err(e) => {
                    let ghost before = failures@;
                    let ghost pv = e.path@;
                    failures.push(e);
                    proof {
                        assert(failure_paths(failures@) =~= failure_paths(before).push(pv));
                    }
                },
            }
        }
        proof {
            assert(pathnames.subrange(0, i + 1).drop_last() =~= pathnames.subrange(0, i as int));
            assert(pathnames.subrange(0, i + 1).last() == pathnames[i as int]);
        }
        i += 1;
    }
    proof {
        assert(pathnames.subrange(0, n as int) =~= pathnames);
    }

    FolderOutcome { sync_ops, failures }
}

} // verus!
