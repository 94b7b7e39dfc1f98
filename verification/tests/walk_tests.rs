use sample_pipeline::walk::{has_extension, join_path, make_out_name, plan_leaves,
    plan_transforms, DirTree};

fn names(raw: &[&[u8]]) -> Vec<Vec<u8>> {
    raw.iter().map(|l| l.to_vec()).collect()
}

fn dir(name: &[u8], files: &[&[u8]], subdirs: Vec<DirTree>) -> DirTree {
    DirTree { name: name.to_vec(), files: names(files), subdirs }
}

#[test]
fn leaf_classification() {
    // A leaf has no subdirectories, whatever its file count.
    let empty = dir(b"empty", &[], vec![]);
    assert!(empty.is_leaf());
    let with_files = dir(b"runs", &[b"a.out", b"b.out"], vec![]);
    assert!(with_files.is_leaf());
    let parent = dir(b"parent", &[b"stray.out"], vec![dir(b"child", &[], vec![])]);
    assert!(!parent.is_leaf());
}

#[test]
fn extension_checks() {
    assert!(has_extension(b"run1.csv", b"csv"));
    assert!(!has_extension(b"run1.out", b"csv"));
    assert!(has_extension(b"a.b.csv", b"csv"));
    // A name that starts with its only dot has no extension.
    assert!(!has_extension(b".csv", b"csv"));
    assert!(!has_extension(b"csv", b"csv"));
    assert!(has_extension(b"x.", b""));
}

#[test]
fn out_name_replaces_extension() {
    assert_eq!(make_out_name(b"run1.csv"), b"run1.out".to_vec());
    assert_eq!(make_out_name(b"a.b.csv"), b"a.b.out".to_vec());
    assert_eq!(make_out_name(b"noext"), b"noext.out".to_vec());
    assert_eq!(make_out_name(b".bashrc"), b".bashrc.out".to_vec());
}

#[test]
fn join_path_inserts_slash() {
    assert_eq!(join_path(b"samples/a", b"run1.csv"), b"samples/a/run1.csv".to_vec());
}

#[test]
fn transform_plan_skips_existing_outputs() {
    let leaf = dir(b"leaf", &[b"a.csv", b"a.out", b"b.csv", b"notes.txt"], vec![]);
    let root = dir(b"samples", &[], vec![leaf]);
    let plan = plan_transforms(&root, b"samples");
    assert_eq!(plan.len(), 1);
    assert_eq!(plan[0].0, b"samples/leaf/b.csv".to_vec());
    assert_eq!(plan[0].1, b"samples/leaf/b.out".to_vec());
}

#[test]
fn transform_plan_is_depth_first() {
    let l1 = dir(b"one", &[b"x.csv"], vec![]);
    let l2 = dir(b"two", &[b"y.csv"], vec![]);
    let root = dir(b"samples", &[b"top.csv"], vec![l1, l2]);
    let plan = plan_transforms(&root, b"samples");
    assert_eq!(plan.len(), 3);
    assert_eq!(plan[0].0, b"samples/top.csv".to_vec());
    assert_eq!(plan[1].0, b"samples/one/x.csv".to_vec());
    assert_eq!(plan[2].0, b"samples/two/y.csv".to_vec());
}

#[test]
fn leaf_plan_lists_leaves_with_their_runs() {
    let l1 = dir(b"one", &[b"a.out", b"a.csv", b"b.out"], vec![]);
    let l2 = dir(b"two", &[b"notes.txt"], vec![]);
    let mid = dir(b"mid", &[b"stray.out"], vec![l2]);
    let root = dir(b"samples", &[], vec![l1, mid]);
    let plan = plan_leaves(&root, b"samples");
    assert_eq!(plan.len(), 2);
    assert_eq!(plan[0].0, b"samples/one".to_vec());
    assert_eq!(plan[0].1, names(&[b"samples/one/a.out", b"samples/one/b.out"]));
    assert_eq!(plan[1].0, b"samples/mid/two".to_vec());
    assert_eq!(plan[1].1, Vec::<Vec<u8>>::new());
}

#[test]
fn root_without_subdirs_is_its_own_leaf() {
    let root = dir(b"samples", &[b"r.out"], vec![]);
    let plan = plan_leaves(&root, b"samples");
    assert_eq!(plan.len(), 1);
    assert_eq!(plan[0].0, b"samples".to_vec());
    assert_eq!(plan[0].1, names(&[b"samples/r.out"]));
}
