use bootstrapper::install::{
    batch_next, batch_start, BatchEvent, BatchStep, batch_size, check_hash, component_url, copy_component, hex_upper, progress_due,
    selected_components, staging_dir, staging_root, to_upper_ascii, ArchiveDigest, DownloadState,
};
use bootstrapper::manifest::{Category, Component, ComponentList};

fn comp(id: &str, size: u64) -> Component {
    Component {
        id: id.to_owned(),
        raw_id: String::new(),
        name: id.to_owned(),
        description: String::new(),
        date_modified: String::new(),
        download_size: size,
        install_size: size * 2,
        path: None,
        hash: "00000000".to_owned(),
        depends: None,
        required: false,
        installed: false,
    }
}

#[test]
fn digest_of_check_string() {
    let mut d = ArchiveDigest::new();
    d.update(b"1234");
    d.update(b"56789");
    assert_eq!(d.finalize(), 0xCBF43926);
}

#[test]
fn digest_of_nothing() {
    let d = ArchiveDigest::new();
    assert_eq!(d.finalize(), 0);
}

#[test]
fn hex_is_eight_upper_digits() {
    assert_eq!(hex_upper(0xCBF43926), "CBF43926");
    assert_eq!(hex_upper(0x1), "00000001");
    assert_eq!(hex_upper(0xdeadbeef), "DEADBEEF");
    assert_eq!(hex_upper(0), "00000000");
}

#[test]
fn upper_case_ascii() {
    assert_eq!(to_upper_ascii("cbf4x-Z"), "CBF4X-Z");
    assert_eq!(to_upper_ascii(""), "");
}

#[test]
fn hash_accepted_in_either_case() {
    assert!(check_hash(0xCBF43926, "cbf43926", "u").is_ok());
    assert!(check_hash(0xCBF43926, "CBF43926", "u").is_ok());
}

#[test]
fn hash_sentinel_disables_check() {
    assert!(check_hash(0x12345678, "00000000", "u").is_ok());
}

#[test]
fn hash_mismatch_fails_with_message() {
    let r = check_hash(0xCBF43926, "abc", "http://x/a.zip");
    assert_eq!(
        r,
        Err("Download failed, hash mismatch: Got \"CBF43926\" expected \"ABC\" - URL: \"http://x/a.zip\"".to_owned())
    );
    assert!(check_hash(0x00000001, "00000002", "u").is_err());
}

#[test]
fn archive_address() {
    let mut c = comp("core-db", 1);
    c.raw_id = "db".to_owned();
    assert_eq!(component_url("https://host/files/", &c), "https://host/files/db.zip");
}

#[test]
fn staging_locations() {
    let mut c = comp("a", 1);
    assert_eq!(staging_root("/opt/fp"), "/opt/fp/Temp/");
    assert_eq!(staging_dir("/opt/fp", &c), "/opt/fp/Temp/");
    c.path = Some("Data/Games".to_owned());
    assert_eq!(staging_dir("/opt/fp", &c), "/opt/fp/Temp/Data/Games");
}

#[test]
fn progress_every_200_ms() {
    assert!(!progress_due(0));
    assert!(!progress_due(199));
    assert!(progress_due(200));
    assert!(progress_due(5000));
}

#[test]
fn batch_sizes() {
    assert_eq!(batch_size(&vec![comp("a", 5), comp("b", 7)]), Some(12));
    assert_eq!(batch_size(&vec![]), Some(0));
    assert_eq!(batch_size(&vec![comp("a", u64::MAX), comp("b", 1)]), None);
}

#[test]
fn progress_record() {
    let comps = vec![comp("a", 5), comp("b", 7)];
    let mut s = DownloadState::for_batch(&comps, 12);
    assert_eq!((s.total_size, s.total_components, s.component_number), (12, 2, 0));
    s.begin_component(&comps[0]);
    assert_eq!(s.component_number, 1);
    assert_eq!(s.stage, "Downloading");
    assert_eq!(s.current.as_ref().map(|c| c.id.clone()), Some("a".to_owned()));
    s.record_chunk(3);
    s.record_chunk(2);
    assert_eq!(s.total_downloaded, 5);
    s.begin_extracting();
    assert_eq!(s.stage, "Extracting");
    let fresh = DownloadState::new();
    assert_eq!((fresh.total_size, fresh.total_downloaded, fresh.component_number), (0, 0, 0));
    assert!(fresh.current.is_none());
}

#[test]
fn copy_keeps_fields() {
    let mut c = comp("a", 9);
    c.path = Some("p".to_owned());
    c.depends = Some("b c".to_owned());
    let d = copy_component(&c);
    assert_eq!((d.id, d.download_size, d.path, d.depends), (c.id, 9, Some("p".to_owned()), Some("b c".to_owned())));
}

#[test]
fn batch_is_the_selection_in_manifest_order() {
    let mut l = ComponentList::new();
    l.categories = vec![Category {
        id: "k".to_owned(),
        name: String::new(),
        description: String::new(),
        subcategories: vec![],
        components: vec![comp("a", 1), comp("b", 2), comp("c", 3)],
        required: false,
    }];
    l.setup();
    l.select("k-c");
    l.select("k-a");
    let batch: Vec<String> = selected_components(&l).into_iter().map(|c| c.id).collect();
    assert_eq!(batch, vec!["k-a".to_owned(), "k-c".to_owned()]);
}

#[test]
fn batch_steps_in_order() {
    let mut s = batch_start(2);
    assert_eq!(s, BatchStep::Download { index: 0 });
    s = batch_next(s, BatchEvent::Downloaded { hash_ok: true }, 2);
    assert_eq!(s, BatchStep::Extract { index: 0 });
    s = batch_next(s, BatchEvent::Extracted, 2);
    assert_eq!(s, BatchStep::Promote { index: 0 });
    s = batch_next(s, BatchEvent::Promoted, 2);
    assert_eq!(s, BatchStep::Download { index: 1 });
    s = batch_next(s, BatchEvent::Downloaded { hash_ok: true }, 2);
    s = batch_next(s, BatchEvent::Extracted, 2);
    s = batch_next(s, BatchEvent::Promoted, 2);
    assert_eq!(s, BatchStep::Finished);
    assert_eq!(batch_start(0), BatchStep::Finished);
}

#[test]
fn hash_failure_stops_at_that_component() {
    let mut s = batch_next(BatchStep::Download { index: 1 }, BatchEvent::Downloaded { hash_ok: false }, 3);
    assert_eq!(s, BatchStep::Failed { index: 1 });
    for e in [BatchEvent::Extracted, BatchEvent::Promoted, BatchEvent::Downloaded { hash_ok: true }] {
        s = batch_next(s, e, 3);
        assert_eq!(s, BatchStep::Failed { index: 1 });
    }
    assert_eq!(batch_next(BatchStep::Extract { index: 2 }, BatchEvent::Error, 3), BatchStep::Failed { index: 2 });
    assert_eq!(batch_next(BatchStep::Promote { index: 0 }, BatchEvent::Error, 3), BatchStep::Failed { index: 0 });
}
