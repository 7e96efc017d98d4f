use raw_import::error::RawImportError;
use raw_import::resolve::{Config, RawImport};

fn resolver() -> RawImport {
    RawImport::new("/proj".to_string(), "/proj/src/a.ts".to_string(), true, true)
}

#[test]
fn resolves_relative_from_current_dir() {
    let r = resolver();
    assert_eq!(r.working_dir(), "/proj/src");
    let p = r.resolve_path(&"./data.txt".to_string()).unwrap();
    assert_eq!(p, "/proj/src/data.txt");
}

#[test]
fn resolves_bare_from_node_modules() {
    let r = resolver();
    let p = r.resolve_path(&"lib/x.json".to_string()).unwrap();
    assert_eq!(p, "/proj/node_modules/lib/x.json");
}

#[test]
fn resolves_parent_relative() {
    let r = resolver();
    let p = r.resolve_path(&"../assets/./logo.svg".to_string()).unwrap();
    assert_eq!(p, "/proj/assets/logo.svg");
}

#[test]
fn strips_nul_from_raw_path() {
    let r = resolver();
    let p = r.resolve_path(&"./da\0ta.txt".to_string()).unwrap();
    assert_eq!(p, "/proj/src/data.txt");
}

#[test]
fn current_location_strips_root_and_slashes() {
    assert_eq!(
        RawImport::current_location(&"/proj".to_string(), &"/proj//src/a.ts".to_string()),
        "/proj/src/a.ts"
    );
    assert_eq!(
        RawImport::current_location(&"/proj".to_string(), &"/other/b.ts".to_string()),
        "/proj/other/b.ts"
    );
}

#[test]
fn directory_location_is_kept() {
    let r = RawImport::new("/proj".to_string(), "/proj/src".to_string(), false, true);
    assert_eq!(r.working_dir(), "/proj/src");
    let p = r.resolve_path(&"./x.txt".to_string()).unwrap();
    assert_eq!(p, "/proj/src/x.txt");
}

#[test]
fn sandboxed_root_is_an_error() {
    let r = RawImport::new("/proj".to_string(), "/proj/src/a.ts".to_string(), true, false);
    match r.resolve_path(&"./data.txt".to_string()) {
        Err(RawImportError::SandboxedEnvironment { root }) => assert_eq!(root, "/proj"),
        other => panic!("unexpected {:?}", other),
    }
}

#[test]
fn nul_in_root_is_an_invalid_path() {
    let r = RawImport::new("/pr\0oj".to_string(), "/pr\0oj/a.ts".to_string(), true, true);
    match r.resolve_path(&"./x.txt".to_string()) {
        Err(RawImportError::InvalidPath { path }) => assert_eq!(path, "/pr\0oj/x.txt"),
        other => panic!("unexpected {:?}", other),
    }
}

#[test]
fn missing_root_dir_is_an_error() {
    let c = Config { root_dir: None };
    assert!(matches!(c.required_root_dir(), Err(RawImportError::MissingConfiguration)));
    let c = Config { root_dir: Some("/proj".to_string()) };
    assert_eq!(c.required_root_dir().unwrap(), "/proj");
}

#[test]
fn absolute_package_path_stays_under_node_modules() {
    let r = resolver();
    let p = r.resolve_path(&"/etc/passwd".to_string()).unwrap();
    assert_eq!(p, "/proj/node_modules/etc/passwd");
    let p = r.resolve_path(&"/lib/../../x".to_string()).unwrap();
    assert_eq!(p, "/proj/x");
}
