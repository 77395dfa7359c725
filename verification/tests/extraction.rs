//! End-to-end tests of the two-pass resolution engine, driving it with real
//! gzip-compressed tar packages and checking the context and the final
//! modelled filesystem state.

use std::io::Read;
use std::io::Write;

use unpack_assets::archive_operations::{
    create_folder_structures, process_archive_entries, process_orphaned_assets, ArchiveEntry,
};
use unpack_assets::memory_tracker::MemoryTracker;
use unpack_assets::thread_pool::ThreadPool;
use unpack_assets::write_ops::WriteOperation;

const KB: u64 = 1024;
const MB: u64 = 1024 * KB;

const TEST_ASSET_DATA: &[u8] = b"test asset content";
const TEST_PATHNAME: &str = "Assets/TestFile.txt";
const TEST_GUID: &str = "guid123";

enum TestEntry {
    Asset { guid: String, data: Vec<u8> },
    FolderAsset { guid: String },
    RegularAsset { guid: String, data: Vec<u8> },
    Pathname { guid: String, path: String },
}

struct TestUnityPackageBuilder {
    entries: Vec<TestEntry>,
}

impl TestUnityPackageBuilder {
    fn new() -> Self {
        Self { entries: Vec::new() }
    }

    /// Add a folder asset (only .meta file with folderAsset: yes, no asset file)
    fn add_folder_asset(mut self, guid: &str, pathname: &str) -> Self {
        self.entries.push(TestEntry::FolderAsset { guid: guid.to_string() });
        self.entries.push(TestEntry::Pathname {
            guid: guid.to_string(),
            path: pathname.to_string(),
        });
        self
    }

    /// Add a regular asset with data
    fn add_asset(mut self, guid: &str, pathname: &str, asset_data: &[u8]) -> Self {
        self.entries.push(TestEntry::RegularAsset {
            guid: guid.to_string(),
            data: asset_data.to_vec(),
        });
        self.entries.push(TestEntry::Pathname {
            guid: guid.to_string(),
            path: pathname.to_string(),
        });
        self
    }

    /// Add only an asset file (no pathname) - useful for testing orphaned assets
    fn add_orphaned_asset(mut self, guid: &str, asset_data: &[u8]) -> Self {
        self.entries.push(TestEntry::Asset {
            guid: guid.to_string(),
            data: asset_data.to_vec(),
        });
        self
    }

    /// Add only a pathname file (no asset) - useful for testing orphaned pathnames
    fn add_orphaned_pathname(mut self, guid: &str, pathname: &str) -> Self {
        self.entries.push(TestEntry::Pathname {
            guid: guid.to_string(),
            path: pathname.to_string(),
        });
        self
    }

    /// Build the Unity package as a gzipped tar archive
    fn build(self) -> Vec<u8> {
        let mut gz_buffer = Vec::new();
        {
            let gz_encoder =
                flate2::write::GzEncoder::new(&mut gz_buffer, flate2::Compression::default());
            let mut tar_builder = tar::Builder::new(gz_encoder);

            for entry in &self.entries {
                match entry {
                    TestEntry::Asset { guid, data } => {
                        add_tar_entry(&mut tar_builder, &format!("{guid}/asset"), data);
                    }
                    TestEntry::FolderAsset { guid } => {
                        let meta_content = format!(
                            "fileFormatVersion: 2\nguid: {guid}\nfolderAsset: yes\nDefaultImporter:\n  externalObjects: {{}}\n  userData: \n  assetBundleName: \n  assetBundleVariant:\n"
                        );
                        add_tar_entry(
                            &mut tar_builder,
                            &format!("{guid}/asset.meta"),
                            meta_content.as_bytes(),
                        );
                    }
                    TestEntry::RegularAsset { guid, data } => {
                        add_tar_entry(&mut tar_builder, &format!("{guid}/asset"), data);
                        let meta =
                            format!("fileFormatVersion: 2\nguid: {guid}\nTextureImporter:\n  userData: \n");
                        add_tar_entry(
                            &mut tar_builder,
                            &format!("{guid}/asset.meta"),
                            meta.as_bytes(),
                        );
                    }
                    TestEntry::Pathname { guid, path } => {
                        add_tar_entry(
                            &mut tar_builder,
                            &format!("{guid}/pathname"),
                            path.as_bytes(),
                        );
                    }
                }
            }

            tar_builder.finish().unwrap();
        }
        gz_buffer
    }
}

fn add_tar_entry<W: Write>(builder: &mut tar::Builder<W>, path: &str, data: &[u8]) {
    let mut header = tar::Header::new_gnu();
    header.set_path(path).unwrap();
    header.set_size(data.len() as u64);
    header.set_cksum();
    builder.append(&header, std::io::Cursor::new(data)).unwrap();
}

/// Decode a gzipped tar package into the plain entries the engine consumes.
fn decode_entries(bytes: &[u8]) -> Vec<ArchiveEntry> {
    let decoder = flate2::bufread::GzDecoder::new(bytes);
    let mut archive = tar::Archive::new(decoder);
    let mut out = Vec::new();
    for entry in archive.entries().unwrap() {
        let mut entry = entry.unwrap();
        let path = entry.path_bytes().to_vec();
        let mut data = Vec::new();
        entry.read_to_end(&mut data).unwrap();
        out.push(ArchiveEntry { path, data });
    }
    out
}

/// In-memory model of the filesystem the operations act on.
struct ModelFs {
    files: Vec<(Vec<u8>, Vec<u8>)>,
    dirs: Vec<Vec<u8>>,
}

impl ModelFs {
    fn new() -> Self {
        Self { files: Vec::new(), dirs: Vec::new() }
    }

    fn upsert(&mut self, target: Vec<u8>, data: Vec<u8>) {
        if let Some(slot) = self.files.iter_mut().find(|(p, _)| *p == target) {
            slot.1 = data;
        } else {
            self.files.push((target, data));
        }
    }

    fn apply(&mut self, ops: &[WriteOperation]) {
        for op in ops {
            match op {
                WriteOperation::CreateFile { target, data } => {
                    self.upsert(target.clone(), data.clone());
                }
                WriteOperation::MoveFile { source, target } => {
                    if let Some(pos) = self.files.iter().position(|(p, _)| p == source) {
                        let (_, data) = self.files.remove(pos);
                        self.upsert(target.clone(), data);
                    }
                }
                WriteOperation::DeleteFile { path } => {
                    if let Some(pos) = self.files.iter().position(|(p, _)| p == path) {
                        self.files.remove(pos);
                    }
                }
                WriteOperation::MakeDirectory { path } => {
                    if !self.dirs.contains(path) {
                        self.dirs.push(path.clone());
                    }
                }
            }
        }
    }
}

/// Run the whole pipeline — scan, folder pass, orphan pass, drain — and
/// return the final modelled filesystem plus the deleted-orphan warnings.
fn run_pipeline(entries: &Vec<ArchiveEntry>, cap: u64, threshold: u64) -> (ModelFs, Vec<Vec<u8>>) {
    let tracker = MemoryTracker::new(cap);
    let mut pool = ThreadPool::new(2, tracker);
    let result = process_archive_entries(entries, &mut pool, threshold);
    let mut fs = ModelFs::new();
    fs.apply(&result.sync_ops);
    let folder_out = create_folder_structures(&result.context, &mut pool);
    fs.apply(&folder_out.sync_ops);
    let orphan_out = process_orphaned_assets(result.context, &mut pool);
    fs.apply(&orphan_out.sync_ops);
    let tasks = pool.shutdown();
    for task in &tasks {
        fs.apply(std::slice::from_ref(&task.op));
    }
    (fs, orphan_out.deleted)
}

#[test]
fn test_extraction_asset_first() {
    let package_data = TestUnityPackageBuilder::new()
        .add_asset(TEST_GUID, TEST_PATHNAME, TEST_ASSET_DATA)
        .build();
    let entries = decode_entries(&package_data);

    let memory_tracker = MemoryTracker::new(MB); // 1MB
    let mut thread_pool = ThreadPool::new(2, memory_tracker);
    let result = process_archive_entries(&entries, &mut thread_pool, 32 * MB);

    // When asset comes before pathname, it will be orphaned initially
    assert!(result.context.has_orphaned_work()); // Asset becomes orphaned

    thread_pool.shutdown();
}

#[test]
fn test_extraction_pathname_first() {
    let package_data = TestUnityPackageBuilder::new()
        .add_orphaned_pathname(TEST_GUID, TEST_PATHNAME)
        .add_orphaned_asset(TEST_GUID, TEST_ASSET_DATA)
        .build();
    let entries = decode_entries(&package_data);

    let memory_tracker = MemoryTracker::new(MB); // 1MB
    let mut thread_pool = ThreadPool::new(2, memory_tracker);
    let result = process_archive_entries(&entries, &mut thread_pool, 32 * MB);

    // The engine can extract immediately when the asset comes after its pathname
    assert!(!result.context.has_orphaned_work());

    thread_pool.shutdown();
}

#[test]
fn test_orphaned_asset_creation() {
    let package_data = TestUnityPackageBuilder::new()
        .add_orphaned_asset(TEST_GUID, TEST_ASSET_DATA)
        .build();
    let entries = decode_entries(&package_data);

    let memory_tracker = MemoryTracker::new(MB); // 1MB
    let mut thread_pool = ThreadPool::new(2, memory_tracker);
    let result = process_archive_entries(&entries, &mut thread_pool, 32 * MB);

    // Should create orphaned asset in root
    assert!(result.context.has_orphaned_work());
    assert_eq!(result.context.orphaned_count(), 1);

    thread_pool.shutdown();
}

#[test]
fn test_folder_asset_creation() {
    let package_data = TestUnityPackageBuilder::new()
        .add_folder_asset("folder123", "Assets/Scripts/")
        .build();
    let entries = decode_entries(&package_data);

    let memory_tracker = MemoryTracker::new(MB); // 1MB
    let mut thread_pool = ThreadPool::new(2, memory_tracker);
    let result = process_archive_entries(&entries, &mut thread_pool, 32 * MB);
    create_folder_structures(&result.context, &mut thread_pool);

    // Should create folder structure and no orphaned assets
    assert!(!result.context.has_orphaned_work());

    thread_pool.shutdown();
}

#[test]
fn test_mixed_package() {
    let package_data = TestUnityPackageBuilder::new()
        .add_folder_asset("folder1", "Assets/Scripts/")
        .add_asset("asset1", "Assets/TestFile.txt", TEST_ASSET_DATA)
        .add_orphaned_asset("orphan1", b"orphaned data")
        .build();
    let entries = decode_entries(&package_data);

    let memory_tracker = MemoryTracker::new(MB); // 1MB
    let mut thread_pool = ThreadPool::new(2, memory_tracker);
    let result = process_archive_entries(&entries, &mut thread_pool, 32 * MB);

    // Should have 2 orphaned assets (asset1 and orphan1) since asset1 comes before its pathname
    assert!(result.context.has_orphaned_work());
    assert_eq!(result.context.orphaned_count(), 2);

    thread_pool.shutdown();
}

#[test]
fn final_state_same_for_both_orderings() {
    // Destination before data.
    let direct = vec![
        ArchiveEntry { path: b"guid1/pathname".to_vec(), data: b"Assets/TestFile.txt".to_vec() },
        ArchiveEntry { path: b"guid1/asset".to_vec(), data: b"test asset content".to_vec() },
    ];
    // Data before destination: the asset is first written as an orphan and
    // moved once the destination is known.
    let deferred = vec![
        ArchiveEntry { path: b"guid1/asset".to_vec(), data: b"test asset content".to_vec() },
        ArchiveEntry { path: b"guid1/pathname".to_vec(), data: b"Assets/TestFile.txt".to_vec() },
    ];

    for entries in [&direct, &deferred] {
        let (fs, deleted) = run_pipeline(entries, MB, 32 * MB);
        assert_eq!(fs.files.len(), 1);
        assert_eq!(fs.files[0].0, b"Assets/TestFile.txt".to_vec());
        assert_eq!(fs.files[0].1, b"test asset content".to_vec());
        assert!(deleted.is_empty());
    }
}

#[test]
fn all_six_orderings_resolve_identically() {
    let ea = ArchiveEntry { path: b"k1/asset".to_vec(), data: b"payload bytes".to_vec() };
    let em = ArchiveEntry {
        path: b"k1/asset.meta".to_vec(),
        data: b"fileFormatVersion: 2\nguid: k1\n".to_vec(),
    };
    let ep = ArchiveEntry { path: b"k1/pathname".to_vec(), data: b"Assets/Sub/File.bin".to_vec() };
    let orders: Vec<Vec<&ArchiveEntry>> = vec![
        vec![&ea, &em, &ep],
        vec![&ea, &ep, &em],
        vec![&em, &ea, &ep],
        vec![&em, &ep, &ea],
        vec![&ep, &ea, &em],
        vec![&ep, &em, &ea],
    ];
    for order in orders {
        let entries: Vec<ArchiveEntry> = order
            .iter()
            .map(|e| ArchiveEntry { path: e.path.clone(), data: e.data.clone() })
            .collect();
        let (fs, deleted) = run_pipeline(&entries, MB, 32 * MB);
        assert_eq!(fs.files.len(), 1);
        assert_eq!(fs.files[0].0, b"Assets/Sub/File.bin".to_vec());
        assert_eq!(fs.files[0].1, b"payload bytes".to_vec());
        assert!(deleted.is_empty());
    }
}

#[test]
fn unresolved_orphan_is_deleted_and_warned() {
    let entries = vec![ArchiveEntry {
        path: b"lost1/asset".to_vec(),
        data: b"doomed".to_vec(),
    }];
    let (fs, deleted) = run_pipeline(&entries, MB, 32 * MB);
    // The temporary file is gone by run end, and the deletion was recorded.
    assert!(fs.files.is_empty());
    assert_eq!(deleted, vec![b"lost1".to_vec()]);
}

#[test]
fn folder_placeholder_yields_directory_and_no_orphan() {
    let folder_meta =
        b"fileFormatVersion: 2\nguid: fold1\nfolderAsset: yes\nDefaultImporter:\n".to_vec();
    let entries = vec![
        ArchiveEntry { path: b"fold1/asset.meta".to_vec(), data: folder_meta },
        ArchiveEntry { path: b"fold1/pathname".to_vec(), data: b"Assets/Scripts/".to_vec() },
    ];
    let tracker = MemoryTracker::new(MB);
    let mut pool = ThreadPool::new(2, tracker);
    let result = process_archive_entries(&entries, &mut pool, 32 * MB);
    assert!(!result.context.has_orphaned_work());

    let mut fs = ModelFs::new();
    fs.apply(&result.sync_ops);
    let folder_out = create_folder_structures(&result.context, &mut pool);
    fs.apply(&folder_out.sync_ops);
    let tasks = pool.shutdown();
    for task in &tasks {
        fs.apply(std::slice::from_ref(&task.op));
    }
    // The trailing slash is trimmed by sanitization.
    assert_eq!(fs.dirs, vec![b"Assets/Scripts".to_vec()]);
    assert!(fs.files.is_empty());
}

#[test]
fn traversal_destination_is_abandoned() {
    let entries = vec![
        ArchiveEntry { path: b"bad1/pathname".to_vec(), data: b"folder/../file.ext".to_vec() },
        ArchiveEntry { path: b"bad1/asset".to_vec(), data: b"owned".to_vec() },
    ];
    let tracker = MemoryTracker::new(MB);
    let mut pool = ThreadPool::new(2, tracker);
    let result = process_archive_entries(&entries, &mut pool, 32 * MB);
    // The write was abandoned with the offending path recorded; the scan
    // itself carried on.
    assert_eq!(result.failures.len(), 1);
    assert_eq!(result.failures[0].path, b"folder/../file.ext".to_vec());
    pool.shutdown();
}

#[test]
fn empty_archive_does_nothing() {
    let entries: Vec<ArchiveEntry> = Vec::new();
    let (fs, deleted) = run_pipeline(&entries, MB, 32 * MB);
    assert!(fs.files.is_empty());
    assert!(fs.dirs.is_empty());
    assert!(deleted.is_empty());
}

#[test]
fn repeated_pathname_entry_last_one_wins() {
    let entries = vec![
        ArchiveEntry { path: b"g1/pathname".to_vec(), data: b"Assets/First.txt".to_vec() },
        ArchiveEntry { path: b"g1/pathname".to_vec(), data: b"Assets/Second.txt".to_vec() },
        ArchiveEntry { path: b"g1/asset".to_vec(), data: b"bytes".to_vec() },
    ];
    let (fs, deleted) = run_pipeline(&entries, MB, 32 * MB);
    assert_eq!(fs.files.len(), 1);
    assert_eq!(fs.files[0].0, b"Assets/Second.txt".to_vec());
    assert!(deleted.is_empty());
}

#[test]
fn flagged_folder_content_is_skipped() {
    // A folder placeholder's payload is not worth relocating: with the flag
    // known and no destination, the content entry leaves no file and no
    // orphan record.
    let folder_meta = b"folderAsset: yes\nrest".to_vec();
    let entries = vec![
        ArchiveEntry { path: b"fold2/asset.meta".to_vec(), data: folder_meta },
        ArchiveEntry { path: b"fold2/asset".to_vec(), data: b"ignored".to_vec() },
    ];
    let tracker = MemoryTracker::new(MB);
    let mut pool = ThreadPool::new(2, tracker);
    let result = process_archive_entries(&entries, &mut pool, 32 * MB);
    assert!(!result.context.has_orphaned_work());
    assert!(result.sync_ops.is_empty());
    assert!(pool.shutdown().is_empty());
}
