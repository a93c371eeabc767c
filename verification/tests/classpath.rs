use inspequte::classpath::{ClasspathError, resolve_classpath};
use inspequte::ir::Class;

fn class_named(name: &str, referenced: Vec<String>, artifact_index: i64) -> Class {
    Class {
        name: name.to_string(),
        source_file: None,
        super_name: None,
        interfaces: Vec::new(),
        referenced_classes: referenced,
        fields: Vec::new(),
        methods: Vec::new(),
        artifact_index,
        is_record: false,
    }
}

#[test]
fn resolve_classpath_accepts_java_references() {
    let classes = vec![
        class_named("com/example/Foo", vec!["java/lang/Object".to_string()], 0),
        class_named("com/example/Bar", Vec::new(), 1),
    ];

    let result = resolve_classpath(&classes);

    assert!(result.is_ok());
}

#[test]
fn resolve_classpath_allows_missing_classes() {
    let classes = vec![class_named(
        "com/example/Foo",
        vec!["com/example/Bar".to_string()],
        0,
    )];

    let result = resolve_classpath(&classes);

    assert!(result.is_ok());
}

#[test]
fn resolve_classpath_rejects_duplicates() {
    let classes = vec![
        class_named("com/example/Foo", Vec::new(), 0),
        class_named("com/example/Foo", Vec::new(), 1),
    ];

    let result = resolve_classpath(&classes);

    assert!(result.is_err());
    let error = result.err().expect("duplicate class error");
    assert!(error.message().contains("duplicate classes"));
}

#[test]
fn resolve_classpath_lists_each_duplicate_with_its_artifacts() {
    let classes = vec![
        class_named("com/example/B", Vec::new(), 0),
        class_named("com/example/A", Vec::new(), 1),
        class_named("com/example/B", Vec::new(), 2),
        class_named("com/example/A", Vec::new(), 3),
        class_named("com/example/C", Vec::new(), 4),
    ];
    match resolve_classpath(&classes) {
        Err(ClasspathError::DuplicateClasses(dups)) => {
            assert_eq!(dups.len(), 2);
            assert_eq!(dups[0].name, "com/example/A");
            assert_eq!(dups[0].artifact_indices, vec![1, 3]);
            assert_eq!(dups[1].name, "com/example/B");
            assert_eq!(dups[1].artifact_indices, vec![0, 2]);
        }
        Ok(_) => panic!("duplicates must be rejected"),
    }
}

#[test]
fn resolve_classpath_indexes_names_in_order() {
    let classes = vec![
        class_named("com/example/Zed", Vec::new(), 7),
        class_named("com/example/Alpha", Vec::new(), 3),
    ];
    let index = resolve_classpath(&classes).expect("no duplicates");
    assert_eq!(
        index.classes,
        vec![
            ("com/example/Alpha".to_string(), 3),
            ("com/example/Zed".to_string(), 7)
        ]
    );
}
