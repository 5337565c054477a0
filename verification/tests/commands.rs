use hfs::backend::local::LocalBackend;
use hfs::backend::s3::{hash_from_key, s3_object_key};
use hfs::cas::{self, Store};
use hfs::cli::clone::{is_hidden_name, manifest_ready, pointer_oid};
use hfs::cli::gc::find_orphans;
use hfs::cli::init::gitignore_with_entry;
use hfs::cli::ls_files::attr_says_hfs;
use hfs::cli::status::tracked_patterns;
use hfs::cli::track::track_patterns;
use hfs::cli::untrack::untrack_patterns;
use hfs::config::{default_avg_chunk, default_compression_level, default_max_chunk, default_min_chunk, Config};
use hfs::error::HfsError;
use hfs::pointer::Pointer;
use hfs::transfer::engine::{plan_transfer, TransferEngine, DEFAULT_CONCURRENCY};

fn strings(v: &[&str]) -> Vec<String> {
    v.iter().map(|s| s.to_string()).collect()
}

// ---- track / untrack / status / init / ls-files ----

#[test]
fn track_appends_entries_once() {
    let (c, added) = track_patterns("", &strings(&["*.bin", "*.tar.gz"]));
    assert_eq!(
        c,
        "*.bin filter=hfs diff=hfs merge=hfs -text\n*.tar.gz filter=hfs diff=hfs merge=hfs -text\n"
    );
    assert_eq!(added, vec![true, true]);
    let (c2, added2) = track_patterns(&c, &strings(&["*.bin", "*.tar.gz"]));
    assert_eq!(c2, c);
    assert_eq!(added2, vec![false, false]);
}

#[test]
fn track_adds_a_missing_final_newline() {
    let (c, added) = track_patterns("*.txt text", &strings(&["*.bin", "*.bin"]));
    assert_eq!(c, "*.txt text\n*.bin filter=hfs diff=hfs merge=hfs -text\n");
    assert_eq!(added, vec![true, false]);
    let (c, added) = track_patterns("  *.bin filter=hfs diff=hfs merge=hfs -text  \r\n", &strings(&["*.bin"]));
    assert_eq!(c, "  *.bin filter=hfs diff=hfs merge=hfs -text  \r\n");
    assert_eq!(added, vec![false]);
}

#[test]
fn untrack_removes_matching_lines() {
    let content = "*.bin filter=hfs diff=hfs merge=hfs -text\n*.txt text\n*.png filter=hfs diff=hfs merge=hfs -text\n";
    let (c, removed) = untrack_patterns(content, &strings(&["*.bin"]));
    assert_eq!(c, "*.txt text\n*.png filter=hfs diff=hfs merge=hfs -text\n");
    assert_eq!(removed, vec!["*.bin"]);
    let (c, removed) = untrack_patterns(&c, &strings(&["*.txt", "*.png"]));
    assert_eq!(c, "*.txt text\n");
    assert_eq!(removed, vec!["*.png"]);
    let (c, removed) = untrack_patterns("*.bin filter=hfs\n", &strings(&["*.bin"]));
    assert_eq!(c, "");
    assert_eq!(removed, vec!["*.bin"]);
}

#[test]
fn status_lists_tracked_patterns() {
    let content = "*.bin filter=hfs diff=hfs merge=hfs -text\n*.txt text\n  *.iso   filter=hfs\nfilter=hfs\n";
    assert_eq!(tracked_patterns(content), vec!["*.bin", "*.iso", "filter=hfs"]);
    assert!(tracked_patterns("").is_empty());
}

#[test]
fn gitignore_entry_added_once() {
    assert_eq!(gitignore_with_entry("", ".hfs/"), Some(".hfs/\n".to_string()));
    assert_eq!(gitignore_with_entry("target", ".hfs/"), Some("target\n.hfs/\n".to_string()));
    assert_eq!(gitignore_with_entry("target\n .hfs/ \n", ".hfs/"), None);
    let once = gitignore_with_entry("target\r", ".hfs/").unwrap();
    assert_eq!(once, "target\r\n.hfs/\n");
    assert_eq!(gitignore_with_entry(&once, ".hfs/"), None);
}

#[test]
fn a_pattern_with_a_line_break_is_tracked_again() {
    let (c, _) = track_patterns("", &strings(&["a\nb"]));
    let (c2, added) = track_patterns(&c, &strings(&["a\nb"]));
    assert_eq!(added, vec![true]);
    assert!(c2.len() > c.len());
}

#[test]
fn check_attr_output() {
    assert!(attr_says_hfs("big.bin: filter: hfs\n"));
    assert!(!attr_says_hfs("a.txt: filter: unspecified\n"));
}

// ---- clone / gc ----

#[test]
fn pointer_oid_of_files() {
    let ptr = Pointer { version: 1, oid: [7; 32], size: 3, chunk_count: 1 };
    assert_eq!(pointer_oid(ptr.encode().as_bytes()), Some([7; 32]));
    assert_eq!(pointer_oid(b"ordinary file"), None);
    assert_eq!(pointer_oid(b"hfs v1\nsize 3\n"), None);
}

#[test]
fn manifest_ready_checks_every_chunk() {
    let mut store = Store::new(".hfs");
    let data: Vec<u8> = (0..600_000u32).map(|i| (i * 7 % 253) as u8).collect();
    let (p, _) = cas::ingest_bytes(&mut store, &data).unwrap();
    assert_eq!(manifest_ready(&store, &p.oid), Ok(true));
    let first = store.list_objects().unwrap()[0];
    store.remove_object(&first).unwrap();
    assert_eq!(manifest_ready(&store, &p.oid), Ok(false));
    assert_eq!(manifest_ready(&store, &[0; 32]), Err(HfsError::MissingManifest));
}

#[test]
fn gc_finds_unreferenced_objects() {
    let mut store = Store::new(".hfs");
    let (p, _) = cas::ingest_bytes(&mut store, b"kept content").unwrap();
    let stray = hfs::cas::hash::hash_bytes(b"stray");
    store.put_object(&stray, b"junk").unwrap();
    store.put_manifest(&[9; 32], b"\xc1").unwrap();
    let orphans = find_orphans(&store).unwrap();
    assert_eq!(orphans, vec![stray]);
    let refs = TransferEngine::new(store).collect_chunk_hashes(&[p.oid]).unwrap();
    assert!(!refs.contains(&stray));
    assert_eq!(refs.len(), 1);
}

// ---- config ----

#[test]
fn config_defaults() {
    let c = Config::default();
    assert_eq!(c.store.min_chunk_size, 256 * 1024);
    assert_eq!(c.store.avg_chunk_size, 1024 * 1024);
    assert_eq!(c.store.max_chunk_size, 4 * 1024 * 1024);
    assert_eq!(c.store.compression_level, 3);
    assert!(c.remote.is_none());
    assert_eq!(default_min_chunk(), 262144);
    assert_eq!(default_avg_chunk(), 1048576);
    assert_eq!(default_max_chunk(), 4194304);
    assert_eq!(default_compression_level(), 3);
}

#[test]
fn hfs_dir_candidates_walk_up() {
    assert_eq!(Config::hfs_dir_candidates("/a/b"), vec!["/a/b/.hfs", "/a/.hfs", "/.hfs"]);
    assert_eq!(Config::hfs_dir_candidates("a"), vec!["a/.hfs", ".hfs"]);
}

#[test]
fn find_hfs_dir_takes_the_nearest() {
    let found = Config::find_hfs_dir("/repo/sub/dir", |p: String| p == "/repo/.hfs" || p == "/.hfs");
    assert_eq!(found, Some("/repo/.hfs".to_string()));
    assert_eq!(Config::find_hfs_dir("/x/y", |_p: String| false), None);
}

// ---- backends and transfer planning ----

#[test]
fn local_backend_layout() {
    let b = LocalBackend::new("/remote");
    assert_eq!(b.root(), "/remote");
    let mut h = [0u8; 32];
    h[0] = 0x12;
    assert_eq!(b.chunk_path(&h), format!("/remote/12/{}", "00".repeat(31)));
}

#[test]
fn s3_keys() {
    let mut h = [0xFFu8; 32];
    h[0] = 0x0A;
    let key = s3_object_key("", &h);
    assert_eq!(key, format!("objects/0a/{}", "ff".repeat(31)));
    assert_eq!(s3_object_key("team/repo", &h), format!("team/repo/objects/0a/{}", "ff".repeat(31)));
    assert_eq!(hash_from_key(&key), Some(h));
    assert_eq!(hash_from_key("team/repo/objects/0a/abc"), None);
    assert_eq!(hash_from_key("noslash"), None);
}

#[test]
fn transfer_plan_skips_present_hashes() {
    let hashes = vec![[1; 32], [2; 32], [3; 32]];
    let (todo, skipped) = plan_transfer(&hashes, &vec![false, true, false]);
    assert_eq!(todo, vec![[1; 32], [3; 32]]);
    assert_eq!(skipped, 1);
}

#[test]
fn transfer_between_two_stores() {
    let data: Vec<u8> = (0..3_000_000u32).map(|i| (i.wrapping_mul(2654435761) >> 13) as u8).collect();
    let mut a = Store::new("repo-a/.hfs");
    let (pointer, _) = cas::ingest_bytes(&mut a, &data).unwrap();

    let engine_a = TransferEngine::new(a).with_concurrency(4);
    assert_eq!(engine_a.concurrency_limit(), 4);
    let chunks = engine_a.collect_chunk_hashes(&[pointer.oid]).unwrap();
    assert_eq!(chunks.len(), pointer.chunk_count as usize);

    // The remote holds nothing yet: everything is pushed.
    let mut remote = Store::new("remote");
    let present: Vec<bool> = chunks.iter().map(|h| remote.has_object(h)).collect();
    let (to_push, skipped) = plan_transfer(&chunks, &present);
    assert_eq!(skipped, 0);
    for h in &to_push {
        let bytes = engine_a.local_store().get_object(h).unwrap();
        remote.put_object(h, &bytes).unwrap();
    }
    // A second push skips everything.
    let present: Vec<bool> = chunks.iter().map(|h| remote.has_object(h)).collect();
    let (again, skipped) = plan_transfer(&chunks, &present);
    assert!(again.is_empty());
    assert_eq!(skipped, chunks.len());

    // Pull into a second repository that only has the manifest.
    let mb = engine_a.local_store().get_manifest(&pointer.oid).unwrap();
    let mut b = Store::new("repo-b/.hfs");
    b.put_manifest(&pointer.oid, &mb).unwrap();
    let mut engine_b = TransferEngine::new(b);
    assert_eq!(engine_b.concurrency_limit(), DEFAULT_CONCURRENCY);
    assert!(engine_b.missing_manifests(&[pointer.oid]).is_empty());
    let wanted = engine_b.collect_chunk_hashes(&[pointer.oid]).unwrap();
    let (to_pull, skipped) = engine_b.missing_objects(&wanted);
    assert_eq!(skipped, 0);
    assert_eq!(to_pull.len(), wanted.len());
    for h in &to_pull {
        let bytes = remote.get_object(h).unwrap();
        engine_b.local_store_mut().put_object(h, &bytes).unwrap();
    }
    let restored = cas::materialize(engine_b.local_store(), &pointer).unwrap();
    assert_eq!(restored, data);
    assert_eq!(engine_b.missing_manifests(&[[5; 32]]), vec![[5; 32]]);
}

#[test]
fn untrack_matches_whole_patterns_only() {
    let content = "*.bin filter=hfs diff=hfs merge=hfs -text\n";
    let (c, removed) = untrack_patterns(content, &strings(&["*.b"]));
    assert_eq!(c, content);
    assert!(removed.is_empty());
    let (c, removed) = untrack_patterns("  *.bin\tfilter=hfs\r\n*.bin text\n", &strings(&["*.bin"]));
    assert_eq!(c, "*.bin text\n");
    assert_eq!(removed, vec!["*.bin"]);
}

#[test]
fn hidden_names() {
    assert!(is_hidden_name(".git"));
    assert!(is_hidden_name("."));
    assert!(!is_hidden_name("a.bin"));
    assert!(!is_hidden_name(""));
}
