use rgit::fs::{FsModel, InitError};
use rgit::init::{creation_plan, head_file_content, initialize, resolve_metadata_dir, InitOutcome};
use rgit::paths::join_path;

#[test]
fn test_init() {
    let test_cases = [("init current directory", "."), ("init specific directory", "test_repo")];

    for (name, repo_path) in test_cases {
        let mut fs = FsModel::new();

        initialize(&mut fs, "/work", repo_path).unwrap();

        let repo_dir = resolve_metadata_dir("/work", repo_path);

        assert!(fs.contains_path(&repo_dir), "{}: repo directory should exist", name);

        for dir in ["objects", "refs", "refs/heads"] {
            let dir_path = join_path(&repo_dir, dir);
            assert!(fs.contains_path(&dir_path), "{}: {} directory should exist", name, dir);
            assert!(fs.is_dir(&dir_path), "{}: {} should be a directory", name, dir);
        }

        let head_path = join_path(&repo_dir, "HEAD");
        assert!(fs.contains_path(&head_path), "{}: HEAD file should exist", name);
        assert!(fs.is_file(&head_path), "{}: HEAD should be a file", name);

        let head_content = fs.read_file(&head_path).unwrap();
        assert_eq!(
            head_content, "ref: refs/heads/master",
            "{}: HEAD should contain 'ref: refs/heads/master'",
            name
        );
    }
}

#[test]
fn init_twice_reports_fresh_then_existing() {
    let mut fs = FsModel::new();

    let first = initialize(&mut fs, "/tmp/r", ".").unwrap();
    match first {
        InitOutcome::Fresh { metadata_dir } => assert_eq!(metadata_dir, "/tmp/r/.rgit"),
        InitOutcome::Existing { .. } => panic!("first init should be fresh"),
    }

    let snapshot = fs.clone();
    let second = initialize(&mut fs, "/tmp/r", ".").unwrap();
    match second {
        InitOutcome::Existing { metadata_dir } => assert_eq!(metadata_dir, "/tmp/r/.rgit"),
        InitOutcome::Fresh { .. } => panic!("second init should report existing"),
    }

    assert_eq!(fs, snapshot, "second init must not change the filesystem");
}

#[test]
fn fresh_init_creates_exactly_the_layout() {
    let mut fs = FsModel::new();

    initialize(&mut fs, "/tmp/r", ".").unwrap();

    assert!(fs.is_dir("/tmp/r/.rgit"));
    assert!(fs.is_dir("/tmp/r/.rgit/objects"));
    assert!(fs.is_dir("/tmp/r/.rgit/refs"));
    assert!(fs.is_dir("/tmp/r/.rgit/refs/heads"));
    assert!(fs.is_file("/tmp/r/.rgit/HEAD"));

    // Missing ancestors of the metadata directory are created as directories.
    assert!(fs.is_dir("/"));
    assert!(fs.is_dir("/tmp"));
    assert!(fs.is_dir("/tmp/r"));

    // Nothing beyond the layout and the ancestors appears.
    assert!(!fs.contains_path("/tmp/r/.rgit/refs/tags"));
    assert!(!fs.contains_path("/tmp/r/.rgit/config"));
    assert!(!fs.contains_path("/tmp/x"));
}

#[test]
fn head_content_is_exact() {
    let mut fs = FsModel::new();

    initialize(&mut fs, "/tmp/r", ".").unwrap();

    let content = fs.read_file("/tmp/r/.rgit/HEAD").unwrap();
    assert_eq!(content, "ref: refs/heads/master");
    assert!(!content.ends_with('\n'), "HEAD must have no trailing newline");
    assert_eq!(head_file_content(), "ref: refs/heads/master");
}

#[test]
fn reinit_does_not_recreate_deleted_head() {
    let mut fs = FsModel::new();

    initialize(&mut fs, "/tmp/r", ".").unwrap();
    assert!(fs.remove_file("/tmp/r/.rgit/HEAD"));

    let second = initialize(&mut fs, "/tmp/r", ".").unwrap();
    match second {
        InitOutcome::Existing { metadata_dir } => assert_eq!(metadata_dir, "/tmp/r/.rgit"),
        InitOutcome::Fresh { .. } => panic!("reinit should report existing"),
    }
    assert!(!fs.contains_path("/tmp/r/.rgit/HEAD"), "HEAD must not be recreated");
    assert!(fs.is_dir("/tmp/r/.rgit/objects"), "substructure must be left alone");
}

#[test]
fn init_nested_target_creates_intermediate_dirs() {
    let mut fs = FsModel::new();

    let outcome = initialize(&mut fs, "/tmp/r", "nested/repo").unwrap();
    match outcome {
        InitOutcome::Fresh { metadata_dir } => {
            assert_eq!(metadata_dir, "/tmp/r/nested/repo/.rgit")
        },
        InitOutcome::Existing { .. } => panic!("init of a new nested target should be fresh"),
    }

    assert!(fs.is_dir("/tmp/r"));
    assert!(fs.is_dir("/tmp/r/nested"));
    assert!(fs.is_dir("/tmp/r/nested/repo"));
    assert!(fs.is_dir("/tmp/r/nested/repo/.rgit"));
    assert!(fs.is_dir("/tmp/r/nested/repo/.rgit/objects"));
    assert!(fs.is_dir("/tmp/r/nested/repo/.rgit/refs"));
    assert!(fs.is_dir("/tmp/r/nested/repo/.rgit/refs/heads"));
    assert!(fs.is_file("/tmp/r/nested/repo/.rgit/HEAD"));
    let content = fs.read_file("/tmp/r/nested/repo/.rgit/HEAD").unwrap();
    assert_eq!(content, "ref: refs/heads/master");
}

#[test]
fn init_fails_when_a_file_obstructs_the_chain() {
    let mut fs = FsModel::new();
    fs.create_dir("/").unwrap();
    fs.create_file_new("/f", "x").unwrap();

    let err = initialize(&mut fs, "/f", ".").unwrap_err();
    assert!(matches!(err, InitError::DirectoryCreation { .. }));
    assert_eq!(fs.read_file("/f").unwrap(), "x", "the obstructing file is untouched");
    assert!(!fs.contains_path("/f/.rgit"));
}

#[test]
fn create_file_new_never_overwrites() {
    let mut fs = FsModel::new();
    fs.create_dir("/").unwrap();
    fs.create_file_new("/f", "x").unwrap();

    let err = fs.create_file_new("/f", "y").unwrap_err();
    assert!(matches!(err, InitError::FileCreation { path } if path == "/f"));
    assert_eq!(fs.read_file("/f").unwrap(), "x");
}

#[test]
fn create_dir_requires_parent() {
    let mut fs = FsModel::new();

    let err = fs.create_dir("/a/b").unwrap_err();
    assert!(matches!(err, InitError::DirectoryCreation { path } if path == "/a/b"));
    assert!(!fs.contains_path("/a/b"));
}

#[test]
fn creation_plan_lists_the_layout_in_order() {
    let plan = creation_plan("/tmp/r", "proj");

    assert_eq!(plan.metadata_dir, "/tmp/r/proj/.rgit");
    assert_eq!(plan.objects_dir, "/tmp/r/proj/.rgit/objects");
    assert_eq!(plan.refs_dir, "/tmp/r/proj/.rgit/refs");
    assert_eq!(plan.heads_dir, "/tmp/r/proj/.rgit/refs/heads");
    assert_eq!(plan.head_path, "/tmp/r/proj/.rgit/HEAD");
    assert_eq!(plan.head_content, "ref: refs/heads/master");
}
