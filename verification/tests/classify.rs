use branchfs::fs_path::classify_path;
use branchfs::fs_path::PathContext;

#[test]
fn root_is_root_path() {
    assert_eq!(classify_path("/"), PathContext::RootPath("/".to_string()));
}

#[test]
fn plain_paths_are_root_paths() {
    assert_eq!(
        classify_path("/etc/passwd"),
        PathContext::RootPath("/etc/passwd".to_string())
    );
    assert_eq!(classify_path(""), PathContext::RootPath(String::new()));
    assert_eq!(
        classify_path("relative/x"),
        PathContext::RootPath("relative/x".to_string())
    );
    // The root's own control file is not special to the classifier.
    assert_eq!(
        classify_path("/.branchfs_ctl"),
        PathContext::RootPath("/.branchfs_ctl".to_string())
    );
}

#[test]
fn bare_branch_dir() {
    assert_eq!(classify_path("/@foo"), PathContext::BranchDir("foo".to_string()));
    assert_eq!(classify_path("/@"), PathContext::BranchDir(String::new()));
}

#[test]
fn branch_ctl_file() {
    assert_eq!(
        classify_path("/@foo/.branchfs_ctl"),
        PathContext::BranchCtl("foo".to_string())
    );
}

#[test]
fn branch_inner_path() {
    assert_eq!(
        classify_path("/@foo/bar/baz.txt"),
        PathContext::BranchPath("foo".to_string(), "/bar/baz.txt".to_string())
    );
}

#[test]
fn ctl_lookalikes_are_branch_paths() {
    assert_eq!(
        classify_path("/@foo/.branchfs_ctl2"),
        PathContext::BranchPath("foo".to_string(), "/.branchfs_ctl2".to_string())
    );
    assert_eq!(
        classify_path("/@foo/.branchfs_ct"),
        PathContext::BranchPath("foo".to_string(), "/.branchfs_ct".to_string())
    );
    assert_eq!(
        classify_path("/@foo/.branchfs_ctl/x"),
        PathContext::BranchPath("foo".to_string(), "/.branchfs_ctl/x".to_string())
    );
}

#[test]
fn nested_branch_segments_alias_innermost() {
    assert_eq!(classify_path("/@a/@b/x"), classify_path("/@b/x"));
    assert_eq!(
        classify_path("/@a/@b/x"),
        PathContext::BranchPath("b".to_string(), "/x".to_string())
    );
    assert_eq!(
        classify_path("/@a/@b/@c/x"),
        PathContext::BranchPath("c".to_string(), "/x".to_string())
    );
    assert_eq!(
        classify_path("/@a/@b"),
        PathContext::BranchDir("b".to_string())
    );
    assert_eq!(
        classify_path("/@a/@b/.branchfs_ctl"),
        PathContext::BranchCtl("b".to_string())
    );
}

#[test]
fn deep_nesting_does_not_overflow() {
    let mut deep = String::new();
    for _ in 0..2000 {
        deep.push_str("/@n");
    }
    deep.push_str("/leaf");
    assert_eq!(
        classify_path(&deep),
        PathContext::BranchPath("n".to_string(), "/leaf".to_string())
    );
}
