use std::path::PathBuf;

use fs2iso::collect::{CollectError, Collector, Entry, ImageNode, Step};

fn entry(path: &str) -> Entry {
    Entry {
        name: path.rsplit('/').next().unwrap().to_string(),
        path: PathBuf::from(path),
        shown: format!("{:?}", path),
    }
}

fn begin(flat: bool, path: &str, name: Option<&str>, is_dir: bool, len: u64) -> (Collector, Step) {
    Collector::new(flat)
        .input(
            PathBuf::from(path),
            format!("{:?}", path),
            name.map(|n| n.to_string()),
            is_dir,
            len,
        )
        .unwrap()
}

#[test]
fn directories_keep_their_name() {
    let (c, step) = begin(false, "x/pkg", Some("pkg"), true, 0);
    assert_eq!(step, Step::Resolve);
    assert_eq!(c.path(), &PathBuf::from("x/pkg"));
    let (c, step) = c.resolved(b"/x/pkg".to_vec()).unwrap();
    assert_eq!(step, Step::List);
    let (c, step) = c
        .listed(vec![entry("x/pkg/sub"), entry("x/pkg/b"), entry("x/pkg/a")])
        .unwrap();
    assert_eq!(step, Step::Stat);
    assert_eq!(c.path(), &PathBuf::from("x/pkg/a"));
    let (c, _) = c.stated(false, 10).unwrap();
    assert_eq!(c.path(), &PathBuf::from("x/pkg/b"));
    let (c, _) = c.stated(false, 5).unwrap();
    assert_eq!(c.payload_bytes(), 15);
    let (c, step) = c.stated(true, 0).unwrap();
    assert_eq!(step, Step::Resolve);
    let (c, _) = c.resolved(b"/x/pkg/sub".to_vec()).unwrap();
    let (c, _) = c.listed(vec![entry("x/pkg/sub/c")]).unwrap();
    let (c, step) = c.stated(false, 1).unwrap();
    assert_eq!(step, Step::Input);
    let p = c.finish().unwrap();
    assert_eq!(p.directory_count, 2);
    assert_eq!(p.payload_bytes, 16);
    let paths: Vec<&str> = p.records.iter().map(|r| r.relative_path.as_str()).collect();
    assert_eq!(paths, ["pkg/a", "pkg/b", "pkg/sub/c"]);
    assert_eq!(p.dirs[0].entries.len(), 1);
    assert_eq!(p.dirs[0].entries[0].name, "pkg");
    assert!(matches!(p.dirs[0].entries[0].node, ImageNode::Dir(1)));
    assert_eq!(p.dirs[1].path, "pkg");
    assert_eq!(p.dirs[2].path, "pkg/sub");
    assert!(matches!(p.dirs[2].entries[0].node, ImageNode::File(2)));
}

#[test]
fn unnamed_directories_merge_into_the_root() {
    for (flat, name) in [(true, Some("pkg")), (false, None), (false, Some(".")), (false, Some(".."))] {
        let (c, _) = begin(flat, "p", name, true, 0);
        let (c, _) = c.resolved(b"/p".to_vec()).unwrap();
        let (c, _) = c.listed(vec![entry("p/a")]).unwrap();
        let (c, _) = c.stated(false, 0).unwrap();
        let p = c.finish().unwrap();
        assert_eq!(p.records[0].relative_path, "a");
        assert_eq!(p.directory_count, 0);
    }
}

#[test]
fn files_stand_at_the_root() {
    let (c, step) = begin(false, "x/a.txt", Some("a.txt"), false, 3);
    assert_eq!(step, Step::Input);
    let e = c
        .input(PathBuf::from("y/A.TXT"), "\"y/A.TXT\"".to_string(), Some("A.TXT".to_string()), false, 1)
        .err()
        .unwrap();
    assert_eq!(
        e.message(),
        "duplicate root name 'A.TXT' from \"x/a.txt\" and \"y/A.TXT\""
    );
}

#[test]
fn files_need_a_name() {
    let e = Collector::new(false)
        .input(PathBuf::from("/"), "\"/\"".to_string(), None, false, 1)
        .err()
        .unwrap();
    assert_eq!(e.message(), "bad input path \"/\"");
}

#[test]
fn cycles_are_noticed() {
    let (c, _) = begin(true, "p", Some("p"), true, 0);
    let (c, _) = c.resolved(b"/p".to_vec()).unwrap();
    let (c, _) = c.listed(vec![entry("p/link")]).unwrap();
    let (c, _) = c.stated(true, 0).unwrap();
    let e = c.resolved(b"/p".to_vec()).err().unwrap();
    assert_eq!(
        e.message(),
        "directory cycle detected at \"p/link\" (re-entered a junction/link)"
    );
}

#[test]
fn one_directory_may_come_twice() {
    let (c, _) = begin(true, "p", Some("p"), true, 0);
    let (c, _) = c.resolved(b"/p".to_vec()).unwrap();
    let (c, _) = c.listed(vec![entry("p/s"), entry("p/t")]).unwrap();
    let (c, _) = c.stated(true, 0).unwrap();
    let (c, _) = c.resolved(b"/shared".to_vec()).unwrap();
    let (c, _) = c.listed(vec![entry("p/s/a")]).unwrap();
    let (c, _) = c.stated(false, 1).unwrap();
    let (c, _) = c.stated(true, 0).unwrap();
    let (c, _) = c.resolved(b"/shared".to_vec()).unwrap();
    let (c, _) = c.listed(vec![entry("p/t/a")]).unwrap();
    let (c, _) = c.stated(false, 1).unwrap();
    assert_eq!(c.finish().unwrap().records.len(), 2);
}

#[test]
fn nesting_has_an_end() {
    let (mut c, _) = begin(true, "p", Some("p"), true, 0);
    let mut path = "p".to_string();
    for level in 0..100u32 {
        c = c.resolved(level.to_be_bytes().to_vec()).unwrap().0;
        path.push_str("/d");
        c = c.listed(vec![entry(&path)]).unwrap().0;
        match c.stated(true, 0) {
            Ok((next, _)) => c = next,
            Err(e) => {
                assert!(matches!(e, CollectError::TooDeep { .. }));
                assert!(e.message().contains("directory nesting too deep under \"p/d"));
                assert_eq!(level, 64);
                return;
            }
        }
    }
    unreachable!()
}

#[test]
fn empty_inputs_hold_no_files() {
    let (c, _) = begin(false, "p", Some("p"), true, 0);
    let (c, _) = c.resolved(b"/p".to_vec()).unwrap();
    let (c, step) = c.listed(vec![]).unwrap();
    assert_eq!(step, Step::Input);
    assert_eq!(c.finish().err().unwrap().message(), "no files found in the inputs");
}
