use raw_import::error::RawImportError;
use raw_import::resolve::RawImport;
use raw_import::rewrite::{assemble, Emit, ModuleItem, Specifier};

fn resolver() -> RawImport {
    RawImport::new("/proj".to_string(), "/proj/src/a.ts".to_string(), true, true)
}

fn import(source: &str, specifiers: Vec<Specifier>) -> ModuleItem {
    ModuleItem::Import { source: source.to_string(), specifiers }
}

fn default(local: &str) -> Specifier {
    Specifier::Default { local: local.to_string() }
}

#[test]
fn raw_import_becomes_constant() {
    let items = vec![import("./f.txt?raw", vec![default("Foo")]), ModuleItem::Other];
    let plan = resolver().plan(&items);
    assert!(plan.stop.is_none());
    assert_eq!(plan.requested_paths(), vec!["/proj/src/f.txt".to_string()]);
    let out = assemble(&plan, &vec![Ok("hello".to_string())]).unwrap();
    assert_eq!(out.len(), 2);
    match &out[0] {
        Emit::Const { index, local, content } => {
            assert_eq!(*index, 0);
            assert_eq!(local, "Foo");
            assert_eq!(content, "hello");
        }
        _ => panic!("expected a constant"),
    }
    assert!(matches!(out[1], Emit::Keep { index: 1 }));
}

#[test]
fn import_without_marker_passes_through() {
    let items = vec![
        ModuleItem::Other,
        import("./f.txt", vec![default("Foo")]),
        import("react", vec![Specifier::Named { local: "useState".to_string() }]),
    ];
    let plan = resolver().plan(&items);
    assert!(plan.requested_paths().is_empty());
    let out = assemble(&plan, &vec![]).unwrap();
    assert_eq!(out.len(), 3);
    assert!(matches!(out[0], Emit::Keep { index: 0 }));
    assert!(matches!(out[1], Emit::Keep { index: 1 }));
    assert!(matches!(out[2], Emit::Keep { index: 2 }));
}

#[test]
fn named_binding_is_rejected_without_reading() {
    let items = vec![import("./f.txt?raw", vec![Specifier::Named { local: "a".to_string() }])];
    let plan = resolver().plan(&items);
    assert!(plan.requested_paths().is_empty());
    match assemble(&plan, &vec![]) {
        Err(RawImportError::UnsupportedSpecifier { source }) => assert_eq!(source, "./f.txt?raw"),
        other => panic!("unexpected {:?}", other),
    }
}

#[test]
fn namespace_binding_is_rejected() {
    let items = vec![import("./f.txt?raw", vec![Specifier::Namespace { local: "ns".to_string() }])];
    let plan = resolver().plan(&items);
    assert!(matches!(plan.stop, Some(RawImportError::UnsupportedSpecifier { .. })));
}

#[test]
fn failed_read_aborts_the_file() {
    let items = vec![import("./missing.txt?raw", vec![default("M")]), ModuleItem::Other];
    let plan = resolver().plan(&items);
    assert_eq!(plan.requested_paths(), vec!["/proj/src/missing.txt".to_string()]);
    match assemble(&plan, &vec![Err("No such file or directory".to_string())]) {
        Err(RawImportError::FileReadError { path, cause }) => {
            assert_eq!(path, "/proj/src/missing.txt");
            assert_eq!(cause, "No such file or directory");
        }
        other => panic!("unexpected {:?}", other),
    }
}

#[test]
fn missing_read_outcome_is_a_read_error() {
    let items = vec![import("./f.txt?raw", vec![default("Foo")])];
    let plan = resolver().plan(&items);
    assert!(matches!(assemble(&plan, &vec![]), Err(RawImportError::FileReadError { .. })));
}

#[test]
fn read_failure_before_rejection_wins() {
    let items = vec![
        import("./a.txt?raw", vec![default("A")]),
        import("./b.txt?raw", vec![Specifier::Named { local: "b".to_string() }]),
    ];
    let plan = resolver().plan(&items);
    assert_eq!(plan.requested_paths(), vec!["/proj/src/a.txt".to_string()]);
    assert!(matches!(
        assemble(&plan, &vec![Err("denied".to_string())]),
        Err(RawImportError::FileReadError { .. })
    ));
    assert!(matches!(
        assemble(&plan, &vec![Ok("a".to_string())]),
        Err(RawImportError::UnsupportedSpecifier { .. })
    ));
}

#[test]
fn text_after_marker_is_ignored_and_bare_paths_use_node_modules() {
    let items = vec![import("pkg/data.json?raw&v=2", vec![default("D"), default("E")])];
    let plan = resolver().plan(&items);
    assert_eq!(
        plan.requested_paths(),
        vec![
            "/proj/node_modules/pkg/data.json".to_string(),
            "/proj/node_modules/pkg/data.json".to_string()
        ]
    );
    let out = assemble(&plan, &vec![Ok("{}".to_string()), Ok("[]".to_string())]).unwrap();
    assert!(matches!(&out[0], Emit::Const { index: 0, local, content } if local == "D" && content == "{}"));
    assert!(matches!(&out[1], Emit::Const { index: 0, local, content } if local == "E" && content == "[]"));
}

#[test]
fn sandboxed_root_stops_the_plan() {
    let r = RawImport::new("/proj".to_string(), "/proj/src/a.ts".to_string(), true, false);
    let items = vec![ModuleItem::Other, import("./f.txt?raw", vec![default("Foo")])];
    let plan = r.plan(&items);
    assert!(plan.requested_paths().is_empty());
    assert!(matches!(
        assemble(&plan, &vec![]),
        Err(RawImportError::SandboxedEnvironment { .. })
    ));
}

#[test]
fn failure_on_a_later_read_is_fatal() {
    let items = vec![
        import("./a.txt?raw", vec![default("A")]),
        ModuleItem::Other,
        import("./b.txt?raw", vec![default("B")]),
    ];
    let plan = resolver().plan(&items);
    assert_eq!(
        plan.requested_paths(),
        vec!["/proj/src/a.txt".to_string(), "/proj/src/b.txt".to_string()]
    );
    match assemble(&plan, &vec![Ok("a".to_string()), Err("permission denied".to_string())]) {
        Err(RawImportError::FileReadError { path, cause }) => {
            assert_eq!(path, "/proj/src/b.txt");
            assert_eq!(cause, "permission denied");
        }
        other => panic!("unexpected {:?}", other),
    }
    let out = assemble(&plan, &vec![Ok("a".to_string()), Ok("b".to_string())]).unwrap();
    assert_eq!(out.len(), 3);
    assert!(matches!(&out[0], Emit::Const { index: 0, content, .. } if content == "a"));
    assert!(matches!(out[1], Emit::Keep { index: 1 }));
    assert!(matches!(&out[2], Emit::Const { index: 2, content, .. } if content == "b"));
}
