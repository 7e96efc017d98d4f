use raw_import::path::normalize_path;

fn norm(p: &str) -> String {
    normalize_path(p.to_string())
}

#[test]
fn test_normalize_path() {
    assert_eq!(
        normalize_path("/workspaces/raw-import//./package.json".to_string()),
        "/workspaces/raw-import/package.json"
    );
    assert_eq!(
        normalize_path("/workspaces/raw-import/..//./package.json".to_string()),
        "/workspaces/package.json"
    );
    assert_eq!(
        normalize_path("./A/../package.json".to_string()),
        "./package.json"
    );
    assert_eq!(
        normalize_path("/cwd//./package.json".to_string()),
        "/cwd/package.json"
    );
    assert_eq!(normalize_path("/a/b/c/../d".to_string()), "/a/b/d");
    assert_eq!(normalize_path("../a/b".to_string()), "../a/b");
    assert_eq!(normalize_path("./a/./b/../c".to_string()), "./a/c");
    assert_eq!(normalize_path("/".to_string()), "/");
}

#[test]
fn normalize_edge_cases() {
    assert_eq!(norm("/a//./b"), "/a/b");
    assert_eq!(norm("/a/b/../c"), "/a/c");
    assert_eq!(norm("./a/../b"), "./b");
    assert_eq!(norm(""), "");
    assert_eq!(norm("."), "");
    assert_eq!(norm("./"), ".");
    assert_eq!(norm("./a/.."), ".");
    assert_eq!(norm("/../../x"), "/x");
    assert_eq!(norm("../../x/../y"), "../../y");
    assert_eq!(norm("a/../../b"), "../b");
    assert_eq!(norm("a/b/"), "a/b");
    assert_eq!(norm("//"), "/");
    assert_eq!(norm(".../x"), ".../x");
    assert_eq!(norm("/é/ü/../ñ"), "/é/ñ");
}

#[test]
fn normalize_twice_same_as_once() {
    for p in [
        "/workspaces/raw-import//./package.json",
        "./A/../package.json",
        "../a/./b/..",
        "a//b/../../..",
        "/..",
        "./x/./y/",
        "",
        "..",
    ] {
        let once = norm(p);
        assert_eq!(norm(&once), once, "input {:?}", p);
    }
}

#[test]
fn normalize_keeps_absolute_prefix() {
    for p in ["/", "/..", "/a/../..", "//x", "/./a"] {
        assert!(norm(p).starts_with('/'), "input {:?}", p);
    }
}

#[test]
fn normalize_keeps_dotted_prefix() {
    for p in ["./a", "./a/b/..", "./../x", "././/q"] {
        assert!(norm(p).starts_with("./"), "input {:?}", p);
    }
}
