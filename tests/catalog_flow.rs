use std::collections::BTreeMap;
use video_catalog::catalog::{Catalog, CatalogEntry, StoreError};
use video_catalog::clean::{CleanPass, PathCheck, PAGE_SIZE};
use video_catalog::probe::ProbeStream;
use video_catalog::reencode::{complete, finish_conversion, plan_conversion, ReencodePass};
use video_catalog::scan::{plan_operation, plan_scan, scan_file, scan_files, FileReport, Operation, ScanError, ScannedFile};
use video_catalog::timestamp::Timestamp;
use video_catalog::walk::{classify, DirItem, Walk, WalkStep};

fn ts(secs: i64, nanos: u32) -> Timestamp {
    Timestamp { secs, nanos }
}

fn videos() -> Vec<String> {
    vec!["mkv".to_string(), "avi".to_string(), "mp4".to_string()]
}

fn video(codec: &str) -> Option<Vec<ProbeStream>> {
    Some(vec![ProbeStream {
        codec_type: Some("video".to_string()),
        codec_name: Some(codec.to_string()),
        width: Some(1280),
        height: Some(720),
        bit_rate: Some("2500 Kbit/s".to_string()),
    }])
}

fn report(path: &str, t: Timestamp, content: &[u8], codec: &str) -> FileReport {
    FileReport {
        path: path.to_string(),
        created: None,
        modified: Some(t),
        size: content.len() as u64,
        head: content.to_vec(),
        streams: video(codec),
    }
}

fn entry(path: &str, ext: Option<&str>, codec: Option<&str>) -> CatalogEntry {
    CatalogEntry {
        path: path.to_string(),
        fingerprint: "f".to_string(),
        last_modified: ts(1, 0),
        codec: codec.map(|c| c.to_string()),
        width: None,
        height: None,
        bit_rate: None,
        extension: ext.map(|e| e.to_string()),
        bytes: 10,
        claimed: false,
    }
}

#[test]
fn insert_takes_fields_from_file_and_prober() {
    let mut c = Catalog::new();
    let r = report("/v/Movie.AVI", ts(100, 0), b"abc", "h264");
    assert_eq!(scan_file(&mut c, &r), Ok(Some(Operation::Insert)));
    let e = c.find_by_path("/v/Movie.AVI").unwrap();
    assert_eq!(e.extension, Some("avi".to_string()));
    assert_eq!(e.codec, Some("h264".to_string()));
    assert_eq!(e.width, Some(1280));
    assert_eq!(e.height, Some(720));
    assert_eq!(e.bytes, 3);
    assert_eq!(e.last_modified, ts(100, 0));
    assert_eq!(e.fingerprint, "ba7816bf8f01cfea414140de5dae2223b00361a396177a9cb410ff61f20015ad");
    assert!(!e.claimed);
}

#[test]
fn rescan_of_unchanged_tree_writes_nothing() {
    let mut c = Catalog::new();
    let reports = vec![
        report("/v/a.mkv", ts(100, 0), b"aaa", "hevc"),
        report("/v/b.avi", ts(200, 5), b"bbb", "h264"),
    ];
    assert_eq!(scan_files(&mut c, &reports), vec![Ok(Some(Operation::Insert)); 2]);
    assert_eq!(scan_files(&mut c, &reports), vec![Ok(None); 2]);
    assert_eq!(c.len(), 2);
    for r in &reports {
        assert_eq!(scan_file(&mut c, r), Ok(None));
    }
}

#[test]
fn newer_file_is_updated_and_close_one_is_not() {
    let mut c = Catalog::new();
    scan_file(&mut c, &report("/v/a.mkv", ts(100, 0), b"old", "hevc")).unwrap();
    let within = report("/v/a.mkv", ts(100, 999_999), b"new", "hevc");
    assert_eq!(scan_file(&mut c, &within), Ok(None));
    let older = report("/v/a.mkv", ts(99, 0), b"new", "hevc");
    assert_eq!(scan_file(&mut c, &older), Ok(None));
    let before = c.find_by_path("/v/a.mkv").unwrap().fingerprint.clone();
    let newer = report("/v/a.mkv", ts(100, 1_000_000), b"new", "av1");
    assert_eq!(scan_file(&mut c, &newer), Ok(Some(Operation::Update)));
    let e = c.find_by_path("/v/a.mkv").unwrap();
    assert_ne!(e.fingerprint, before);
    assert_eq!(e.codec, Some("av1".to_string()));
    assert_eq!(e.last_modified, ts(100, 1_000_000));
    assert_eq!(c.len(), 1);
}

#[test]
fn scan_errors() {
    let mut c = Catalog::new();
    let mut r = report("/v/a.mkv", ts(100, 0), b"abc", "hevc");
    r.modified = None;
    assert_eq!(scan_file(&mut c, &r), Err(ScanError::NoTimestamp));
    let mut short = report("/v/a.mkv", ts(100, 0), b"abc", "hevc");
    short.size = 50;
    assert_eq!(scan_file(&mut c, &short), Err(ScanError::Unreadable));
    assert_eq!(c.len(), 0);
}

#[test]
fn scanned_file_from_row_needs_no_write() {
    let mut c = Catalog::new();
    c.insert(entry("/v/a.mkv", Some("mkv"), Some("hevc"))).unwrap();
    let r = report("/v/a.mkv", ts(1, 0), b"abc", "hevc");
    let f = ScannedFile::new(&r, c.find_by_path("/v/a.mkv")).unwrap();
    assert_eq!(f.operation, None);
    assert_eq!(f.entry.fingerprint, "f");
    assert_eq!(f.store(&mut c), Ok(0));
    assert_eq!(plan_operation(None, &ts(0, 0)), Some(Operation::Insert));
}

#[test]
fn store_refusals() {
    let mut c = Catalog::new();
    assert_eq!(c.insert(entry("/a", None, None)), Ok(()));
    assert_eq!(c.insert(entry("/a", None, None)), Err(StoreError::DuplicatePath));
    assert_eq!(c.update(entry("/b", None, None)), Err(StoreError::MissingPath));
    assert_eq!(c.delete("/b"), 0);
    assert_eq!(c.delete("/a"), 1);
    assert_eq!(c.len(), 0);
}

#[test]
fn update_keeps_claim_flag() {
    let mut c = Catalog::new();
    c.insert(entry("/a.avi", Some("avi"), Some("h264"))).unwrap();
    assert!(c.claim_one_mismatched("mkv", "hevc", &videos()).is_some());
    c.update(entry("/a.avi", Some("avi"), Some("vp9"))).unwrap();
    let e = c.find_by_path("/a.avi").unwrap();
    assert!(e.claimed);
    assert_eq!(e.codec, Some("vp9".to_string()));
    assert_eq!(c.release("/a.avi"), 1);
    assert!(!c.find_by_path("/a.avi").unwrap().claimed);
}

#[test]
fn pages_follow_catalog_order() {
    let mut c = Catalog::new();
    for p in ["/a", "/b", "/c"] {
        c.insert(entry(p, None, None)).unwrap();
    }
    assert_eq!(c.list_paginated(0, 2), vec!["/a".to_string(), "/b".to_string()]);
    assert_eq!(c.list_paginated(2, 2), vec!["/c".to_string()]);
    assert!(c.list_paginated(3, 2).is_empty());
    assert!(c.list_paginated(usize::MAX, usize::MAX).is_empty());
}

#[test]
fn two_claims_on_one_candidate() {
    let mut c = Catalog::new();
    c.insert(entry("/done.mkv", Some("mkv"), Some("hevc"))).unwrap();
    c.insert(entry("/todo.avi", Some("avi"), Some("h264"))).unwrap();
    let first = c.claim_one_mismatched("mkv", "hevc", &videos());
    let second = c.claim_one_mismatched("mkv", "hevc", &videos());
    assert_eq!(first.map(|x| (x.path, x.bytes)), Some(("/todo.avi".to_string(), 10)));
    assert!(second.is_none());
    assert!(c.find_by_path("/todo.avi").unwrap().claimed);
    assert!(!c.find_by_path("/done.mkv").unwrap().claimed);
}

#[test]
fn claim_skips_entries_without_target_pair() {
    let mut c = Catalog::new();
    c.insert(entry("/x.mkv", Some("mkv"), Some("h264"))).unwrap();
    c.insert(entry("/y.avi", Some("avi"), Some("hevc"))).unwrap();
    assert_eq!(c.claim_one_mismatched("mkv", "hevc", &videos()).unwrap().path, "/x.mkv");
    assert_eq!(c.claim_one_mismatched("mkv", "hevc", &videos()).unwrap().path, "/y.avi");
    assert!(c.claim_one_mismatched("mkv", "hevc", &videos()).is_none());
}

#[test]
fn claim_skips_files_that_are_not_video() {
    let mut c = Catalog::new();
    c.insert(entry("/notes.txt", Some("txt"), None)).unwrap();
    c.insert(entry("/raw", None, None)).unwrap();
    assert!(c.claim_one_mismatched("mkv", "hevc", &videos()).is_none());
    c.insert(entry("/clip.mp4", Some("mp4"), None)).unwrap();
    assert_eq!(c.claim_one_mismatched("mkv", "hevc", &videos()).unwrap().path, "/clip.mp4");
}

#[test]
fn scan_run_stops_without_timestamps() {
    let mut c = Catalog::new();
    let mut bad = report("/v/b.mkv", ts(1, 0), b"bbb", "hevc");
    bad.modified = None;
    let reports = vec![report("/v/a.mkv", ts(1, 0), b"aaa", "hevc"), bad, report("/v/c.mkv", ts(1, 0), b"ccc", "hevc")];
    let out = scan_files(&mut c, &reports);
    assert_eq!(out, vec![Ok(Some(Operation::Insert)), Err(ScanError::NoTimestamp)]);
    assert_eq!(c.len(), 1);
    assert!(c.find_by_path("/v/c.mkv").is_none());
}

#[test]
fn plan_before_reading() {
    let mut c = Catalog::new();
    assert_eq!(plan_scan(None, None, None), Err(ScanError::NoTimestamp));
    assert_eq!(plan_scan(Some(ts(5, 0)), None, None), Ok((ts(5, 0), Some(Operation::Insert))));
    c.insert(entry("/a", None, None)).unwrap();
    let e = c.find_by_path("/a");
    assert_eq!(plan_scan(None, Some(ts(1, 500_000)), e), Ok((ts(1, 500_000), None)));
    assert_eq!(plan_scan(Some(ts(2, 0)), Some(ts(1, 0)), e), Ok((ts(2, 0), Some(Operation::Update))));
}

#[test]
fn inserted_row_is_unclaimed() {
    let mut c = Catalog::new();
    let mut e = entry("/a", None, None);
    e.claimed = true;
    let f = ScannedFile { entry: e, operation: Some(Operation::Insert) };
    assert_eq!(f.store(&mut c), Ok(1));
    assert!(!c.find_by_path("/a").unwrap().claimed);
    assert_eq!(f.store(&mut c), Err(StoreError::DuplicatePath));
}

#[test]
fn finish_conversion_refuses_misfit_write() {
    let mut c = Catalog::new();
    c.insert(entry("/v/a.avi", Some("avi"), Some("h264"))).unwrap();
    let f = ScannedFile { entry: entry("/v/a.mkv", Some("mkv"), Some("hevc")), operation: Some(Operation::Update) };
    assert_eq!(finish_conversion(&mut c, "/v/a.avi", &f), Err(StoreError::MissingPath));
    assert!(c.find_by_path("/v/a.avi").is_some());
    let g = ScannedFile { entry: entry("/v/a.mkv", Some("mkv"), Some("hevc")), operation: Some(Operation::Insert) };
    c.insert(entry("/v/other.avi", Some("avi"), Some("h264"))).unwrap();
    assert_eq!(finish_conversion(&mut c, "/v/a.avi", &g), Ok(()));
    assert!(c.find_by_path("/v/a.avi").is_none());
    assert!(c.find_by_path("/v/other.avi").is_some());
    assert!(!c.find_by_path("/v/a.mkv").unwrap().claimed);
}

#[test]
fn symlinks_are_not_visited() {
    let item = |p: &str, l: bool, d: bool, f: bool| DirItem { path: p.to_string(), is_symlink: l, is_dir: d, is_file: f };
    assert_eq!(classify(&item("/r/link", true, false, false)), WalkStep::Skip);
    assert_eq!(classify(&item("/r/d", false, true, false)), WalkStep::Descend);
    assert_eq!(classify(&item("/r/f", false, false, true)), WalkStep::Visit);
    assert_eq!(classify(&item("/r/fifo", false, false, false)), WalkStep::Skip);
    let mut w = Walk::new("/r".to_string(), true);
    assert_eq!(w.next_dir(), Some("/r".to_string()));
    let files = w.on_listing(&vec![
        item("/r/movie.mkv", false, false, true),
        item("/r/link.mkv", true, false, false),
        item("/r/sub", false, true, false),
    ]);
    assert_eq!(files, vec!["/r/movie.mkv".to_string()]);
    assert_eq!(w.next_dir(), Some("/r/sub".to_string()));
    assert!(w.is_done());
    assert_eq!(w.next_dir(), None);
}

#[test]
fn root_that_is_not_a_directory_is_a_no_op() {
    let mut w = Walk::new("/missing".to_string(), false);
    assert!(w.is_done());
    assert_eq!(w.next_dir(), None);
}

/// Runs one cleaner pass over `c`, where `on_disk` says which paths exist.
fn clean_once(c: &mut Catalog, on_disk: &dyn Fn(&str) -> bool, page: u64) -> u64 {
    let mut pass = CleanPass::new();
    let mut deleted = 0;
    while let Some((offset, limit)) = pass.next_page() {
        let limit = limit.min(page);
        let checks: Vec<PathCheck> = c
            .list_paginated(offset as usize, limit as usize)
            .into_iter()
            .map(|p| PathCheck { is_file: on_disk(&p), path: p })
            .collect();
        for p in pass.on_page(&checks) {
            deleted += c.delete(&p);
        }
    }
    deleted
}

#[test]
fn cleaner_passes_converge() {
    let mut c = Catalog::new();
    let mut gone = 0;
    for i in 0..250 {
        let p = format!("/v/{i:03}");
        c.insert(entry(&p, None, None)).unwrap();
        if i % 3 != 0 {
            gone += 1;
        }
    }
    let on_disk = |p: &str| p[3..].parse::<u32>().unwrap() % 3 == 0;
    let mut total = 0;
    for _ in 0..gone {
        total += clean_once(&mut c, &on_disk, PAGE_SIZE);
        if total == gone {
            break;
        }
    }
    assert_eq!(total, gone);
    assert_eq!(c.len(), 250 - gone as usize);
    assert_eq!(clean_once(&mut c, &on_disk, PAGE_SIZE), 0);
}

#[test]
fn empty_page_ends_clean_pass() {
    let mut pass = CleanPass::new();
    assert_eq!(pass.next_page(), Some((0, PAGE_SIZE)));
    let gone = pass.on_page(&vec![
        PathCheck { path: "/a".to_string(), is_file: true },
        PathCheck { path: "/b".to_string(), is_file: false },
    ]);
    assert_eq!(gone, vec!["/b".to_string()]);
    assert_eq!(pass.next_page(), Some((PAGE_SIZE, PAGE_SIZE)));
    assert!(pass.on_page(&vec![]).is_empty());
    assert_eq!(pass.next_page(), None);
}

#[test]
fn conversion_plan_and_encoder_arguments() {
    let p = plan_conversion("/v/movie.avi", "mkv", "hevc");
    assert_eq!(p.target_path, "/v/movie.mkv");
    assert_eq!(p.staging_input, "/tmp/in");
    assert_eq!(p.staging_output, "/tmp/converting.mkv");
    assert_eq!(
        p.encoder_args,
        vec![
            "-y", "-loglevel", "warning", "-i", "/tmp/in", "-c:v", "hevc", "-c:a", "aac",
            "-hide_banner", "-nostats", "/tmp/converting.mkv"
        ]
    );
    let ok = complete(&p, true);
    assert!(ok.install_output && ok.remove_source && !ok.hold_claim);
    let failed = complete(&p, false);
    assert!(!failed.install_output && !failed.remove_source && failed.hold_claim);
    let same = plan_conversion("/v/movie.mkv", "mkv", "hevc");
    assert!(!complete(&same, true).remove_source);
}

/// One transcode pass over `c` with an encoder stub; `disk` maps paths to
/// file contents.
fn transcode_pass(c: &mut Catalog, disk: &mut BTreeMap<String, Vec<u8>>, encoder_ok: bool) {
    let (ext, codec) = ("mkv", "hevc");
    let mut pass = ReencodePass::new();
    while !pass.is_done() {
        let claim = c.claim_one_mismatched(ext, codec, &videos());
        let plan = match pass.on_claim(claim.as_ref(), ext, codec) {
            Some(p) => p,
            None => break,
        };
        let content = disk[&plan.source_path].clone();
        disk.insert(plan.staging_input.clone(), content.clone());
        if encoder_ok {
            let mut out = b"converted:".to_vec();
            out.extend_from_slice(&content);
            disk.insert(plan.staging_output.clone(), out);
        }
        let done = pass.on_encoded(&plan, encoder_ok);
        if done.install_output {
            let out = disk[&plan.staging_output].clone();
            disk.insert(plan.target_path.clone(), out.clone());
            let r = FileReport {
                path: plan.target_path.clone(),
                created: None,
                modified: Some(ts(500, 0)),
                size: out.len() as u64,
                head: out,
                streams: video(codec),
            };
            let scanned = ScannedFile::new(&r, c.find_by_path(&plan.target_path)).unwrap();
            finish_conversion(c, &plan.source_path, &scanned).unwrap();
        }
        if done.remove_source {
            disk.remove(&plan.source_path);
            disk.remove(&plan.staging_input);
            disk.remove(&plan.staging_output);
        }
    }
    for p in pass.releases() {
        c.release(p);
    }
}

#[test]
fn transcode_round_trip() {
    let mut c = Catalog::new();
    let mut disk = BTreeMap::new();
    disk.insert("/v/movie.avi".to_string(), b"source".to_vec());
    scan_file(&mut c, &report("/v/movie.avi", ts(100, 0), b"source", "h264")).unwrap();
    transcode_pass(&mut c, &mut disk, true);
    let e = c.find_by_path("/v/movie.mkv").unwrap();
    assert_eq!(e.codec, Some("hevc".to_string()));
    assert_eq!(e.extension, Some("mkv".to_string()));
    assert!(c.find_by_path("/v/movie.avi").is_none());
    assert!(!disk.contains_key("/v/movie.avi"));
    assert!(!disk.contains_key("/tmp/in"));
    assert!(!disk.contains_key("/tmp/converting.mkv"));
    assert!(disk.contains_key("/v/movie.mkv"));
    assert_eq!(c.len(), 1);
    assert!((0..c.len()).all(|i| !c.get(i).claimed));
}

#[test]
fn failed_conversion_is_released_at_pass_end() {
    let mut c = Catalog::new();
    let mut disk = BTreeMap::new();
    disk.insert("/v/movie.avi".to_string(), b"source".to_vec());
    scan_file(&mut c, &report("/v/movie.avi", ts(100, 0), b"source", "h264")).unwrap();
    transcode_pass(&mut c, &mut disk, false);
    let e = c.find_by_path("/v/movie.avi").unwrap();
    assert!(!e.claimed);
    assert!(disk.contains_key("/v/movie.avi"));
    assert!(c.find_by_path("/v/movie.mkv").is_none());
}

#[test]
fn same_path_conversion_updates_in_place() {
    let mut c = Catalog::new();
    let mut disk = BTreeMap::new();
    disk.insert("/v/movie.mkv".to_string(), b"source".to_vec());
    scan_file(&mut c, &report("/v/movie.mkv", ts(100, 0), b"source", "h264")).unwrap();
    transcode_pass(&mut c, &mut disk, true);
    let e = c.find_by_path("/v/movie.mkv").unwrap();
    assert_eq!(e.codec, Some("hevc".to_string()));
    assert!(!e.claimed);
    assert_eq!(c.len(), 1);
    assert!(disk.contains_key("/tmp/in"));
}
