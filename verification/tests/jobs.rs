use std::path::PathBuf;

use fs2iso::collect::{CollectedPayload, FileRecord};
use fs2iso::image::{BuildError, Options, ReadFault};
use fs2iso::job::{Build, Stage};

fn payload(paths: &[&str]) -> CollectedPayload {
    CollectedPayload {
        dirs: vec![],
        records: paths
            .iter()
            .map(|p| FileRecord { relative_path: p.to_string(), source_path: PathBuf::from(p) })
            .collect(),
        directory_count: 1,
        payload_bytes: 7,
    }
}

fn started(no_eltorito: bool) -> Build {
    let options = Options { no_eltorito, ..Options::default() };
    Build::new(1, options, "\"out.iso\"", Some("out".to_string())).unwrap()
}

fn sourced(no_eltorito: bool) -> Build {
    let b = started(no_eltorito).collected(Ok(payload(&["a", "d/b"])));
    assert!(matches!(b.stage, Stage::Output));
    let b = b.output_resolved(Ok(b"/w/out.iso".to_vec()));
    assert!(matches!(b.stage, Stage::Source));
    let b = b.source_resolved(Ok(b"/w/a".to_vec()));
    assert!(matches!(b.stage, Stage::Source));
    b.source_resolved(Ok(b"/w/d/b".to_vec()))
}

fn writing(no_eltorito: bool) -> Build {
    let mut b = sourced(no_eltorito);
    while matches!(b.stage, Stage::Read) {
        b = b.read(Ok(b"content".to_vec()));
    }
    assert!(matches!(b.stage, Stage::Probe(0)));
    assert_eq!(b.candidate(Some("out.iso"), 9), "out.iso.tmp-9");
    let b = b.probed(true, "\"out.iso.tmp-9\"");
    assert!(matches!(b.stage, Stage::Probe(1)));
    assert_eq!(b.candidate(Some("out.iso"), 9), "out.iso.tmp-9-1");
    b.probed(false, "\"out.iso.tmp-9-1\"").created(Ok(()))
}

fn failure(b: Build) -> BuildError {
    assert!(matches!(b.stage, Stage::Failed(_)));
    b.finish().unwrap_err()
}

fn discarded(b: Build) -> BuildError {
    assert!(matches!(b.stage, Stage::Discard(_)));
    failure(b.discarded())
}

#[test]
fn a_plain_disc() {
    let b = writing(true);
    assert!(b.container.is_none());
    assert_eq!(b.settings().volume_id, "OUT");
    let b = b.written(Ok(()));
    assert!(matches!(b.stage, Stage::Measure));
    let b = b.measured(Some(2048 * 30 + 5)).looked(false);
    assert!(matches!(b.stage, Stage::Rename));
    let s = b.renamed(Ok(())).finish().unwrap();
    assert_eq!(s.sectors, 30);
    assert_eq!((s.dirs, s.files, s.payload_bytes), (1, 2, 7));
    assert!(!s.bootable);
    assert_eq!(s.label, "OUT");
}

#[test]
fn a_bootable_disc_is_read_back() {
    let b = writing(false);
    assert!(b.container.is_some());
    assert_eq!(b.entries[1].0, "d/b");
    let b = b.written(Ok(()));
    assert!(matches!(b.stage, Stage::Load));
    let e = discarded(b.loaded(Ok(vec![0u8; 4096])));
    assert!(matches!(e, BuildError::ArtifactPatch(_)));
}

#[test]
fn failures_before_the_temporary_file() {
    let e = failure(started(true).collected(Err("no way".to_string())));
    assert_eq!(e.message(), "no way");
    let b = started(true).collected(Ok(payload(&["a"])));
    let e = failure(b.output_resolved(Err("no output".to_string())));
    assert!(matches!(e, BuildError::OutputPath(_)));
    let b = started(true).collected(Ok(payload(&["a"])));
    let e = failure(b.output_resolved(Ok(b"/w/a".to_vec())).source_resolved(Ok(b"/w/a".to_vec())));
    assert_eq!(e.message(), "output image \"out.iso\" would overwrite a payload file");
    let b = started(true).collected(Ok(payload(&["a"])));
    let e = failure(b.output_resolved(Ok(b"/w/o".to_vec())).source_resolved(Err("x".to_string())));
    assert!(matches!(e, BuildError::Collection(_)));
    let fault = ReadFault { path: "\"a\"".to_string(), message: "gone".to_string() };
    let e = failure(sourced(false).read(Err(fault)));
    assert_eq!(e.message(), "cannot read \"a\": gone");
    let b = sourced(false).read(Ok(vec![])).read(Ok(vec![]));
    assert_eq!(
        failure(b).message(),
        "image build failed: nothing to pack into the FAT container"
    );
}

#[test]
fn failures_discard_the_temporary_file() {
    let b = sourced(true).probed(false, "\"t\"").created(Err("full".to_string()));
    assert_eq!(discarded(b).message(), "cannot create \"t\": full");
    let b = writing(true).written(Err("bad tree".to_string()));
    assert_eq!(discarded(b).message(), "image build failed: bad tree");
    let b = writing(false).written(Ok(())).loaded(Err("io".to_string()));
    assert_eq!(discarded(b).message(), "io");
    let b = writing(true).written(Ok(())).measured(None).looked(true);
    assert!(matches!(b.stage, Stage::Remove));
    let b = b.removed(Err("busy".to_string()));
    assert_eq!(discarded(b).message(), "cannot finalize \"out.iso\": busy");
    let b = writing(true).written(Ok(())).measured(None).looked(true).removed(Ok(()));
    assert!(matches!(b.stage, Stage::Rename));
    let b = b.renamed(Err("busy".to_string()));
    assert_eq!(discarded(b).message(), "cannot finalize \"out.iso\": busy");
}
