use inspequte::engine::{ArtifactInfo, build_context};
use inspequte::ir::Class;

fn class_with_artifact(name: &str, artifact_index: i64) -> Class {
    Class {
        name: name.to_string(),
        source_file: None,
        super_name: None,
        interfaces: Vec::new(),
        referenced_classes: Vec::new(),
        fields: Vec::new(),
        methods: Vec::new(),
        artifact_index,
        is_record: false,
    }
}

fn artifact(uri: &str, parent_index: Option<i64>, is_analysis_target: bool) -> ArtifactInfo {
    ArtifactInfo {
        uri: Some(uri.to_string()),
        parent_index,
        is_analysis_target,
    }
}

#[test]
fn build_context_partitions_analysis_target_and_dependency_classes() {
    let classes = vec![
        class_with_artifact("com/example/ClassA", 0),
        class_with_artifact("com/example/ClassB", 1),
        class_with_artifact("com/example/ClassC", 2),
    ];
    let artifacts = vec![
        artifact("file:///tmp/app.jar", None, true),
        artifact("file:///tmp/lib.jar", None, false),
        artifact("jar:file:///tmp/app.jar!/lib/nested.jar", Some(0), false),
    ];

    let context = build_context(classes, &artifacts);
    let analysis_target_names = context
        .analysis_target_classes()
        .iter()
        .map(|class| class.name.as_str())
        .collect::<Vec<_>>();
    let dependency_names = context
        .dependency_classes()
        .iter()
        .map(|class| class.name.as_str())
        .collect::<Vec<_>>();

    assert_eq!(
        analysis_target_names,
        vec!["com/example/ClassA", "com/example/ClassC"]
    );
    assert_eq!(dependency_names, vec!["com/example/ClassB"]);
}

#[test]
fn build_context_treats_all_classes_as_targets_without_analysis_target_artifacts() {
    let classes = vec![
        class_with_artifact("com/example/ClassA", 0),
        class_with_artifact("com/example/ClassB", 1),
    ];
    let artifacts = vec![
        artifact("file:///tmp/app.jar", None, false),
        artifact("file:///tmp/lib.jar", None, false),
    ];

    let context = build_context(classes, &artifacts);
    let all_names = context
        .all_classes()
        .iter()
        .map(|class| class.name.as_str())
        .collect::<Vec<_>>();

    assert_eq!(context.analysis_target_classes().len(), 2);
    assert!(context.dependency_classes().is_empty());
    assert_eq!(all_names, vec!["com/example/ClassA", "com/example/ClassB"]);
}

#[test]
fn class_artifact_uri_uses_source_file_name_for_class_artifact() {
    let mut class = class_with_artifact("com/example/ClassA", 0);
    class.source_file = Some("ClassA.java".to_string());
    let artifacts = vec![artifact(
        "file:///tmp/build/classes/com/example/ClassA.class",
        None,
        false,
    )];

    let context = build_context(vec![class], &artifacts);
    let class = &context.analysis_target_classes()[0];
    assert_eq!(
        context.class_artifact_uri(class),
        Some("file:///tmp/build/classes/com/example/ClassA.java".to_string())
    );
}

#[test]
fn class_artifact_uri_keeps_class_uri_when_source_file_is_missing() {
    let classes = vec![class_with_artifact("com/example/ClassA", 0)];
    let artifacts = vec![artifact(
        "file:///tmp/build/classes/com/example/ClassA.class",
        None,
        false,
    )];

    let context = build_context(classes, &artifacts);
    let class = &context.analysis_target_classes()[0];
    assert_eq!(
        context.class_artifact_uri(class),
        Some("file:///tmp/build/classes/com/example/ClassA.class".to_string())
    );
}

#[test]
fn class_artifact_uri_uses_source_file_attribute_name_when_available() {
    let mut class = class_with_artifact("com/example/FileAKt", 0);
    class.source_file = Some("file_a.kt".to_string());
    let artifacts = vec![artifact(
        "file:///tmp/build/classes/com/example/FileAKt.class",
        None,
        false,
    )];

    let context = build_context(vec![class], &artifacts);
    let class = &context.analysis_target_classes()[0];
    assert_eq!(
        context.class_artifact_uri(class),
        Some("file:///tmp/build/classes/com/example/file_a.kt".to_string())
    );
}

#[test]
fn class_artifact_uri_uses_outer_source_file_for_inner_class() {
    let mut class = class_with_artifact("com/example/ClassA$Inner", 0);
    class.source_file = Some("ClassA.java".to_string());
    let artifacts = vec![artifact(
        "file:///tmp/build/classes/com/example/ClassA$Inner.class",
        None,
        false,
    )];

    let context = build_context(vec![class], &artifacts);
    let class = &context.analysis_target_classes()[0];
    assert_eq!(
        context.class_artifact_uri(class),
        Some("file:///tmp/build/classes/com/example/ClassA.java".to_string())
    );
}

#[test]
fn class_artifact_uri_points_into_jar_for_jar_artifact() {
    let classes = vec![class_with_artifact("com/example/ClassA", 0)];
    let artifacts = vec![artifact("file:///tmp/app.jar", None, false)];
    let context = build_context(classes, &artifacts);
    let class = &context.analysis_target_classes()[0];
    assert_eq!(
        context.class_artifact_uri(class),
        Some("jar:file:///tmp/app.jar!/com/example/ClassA.class".to_string())
    );
}

#[test]
fn class_artifact_uri_is_none_for_other_artifacts_and_missing_indices() {
    let classes = vec![
        class_with_artifact("com/example/ClassA", 0),
        class_with_artifact("com/example/ClassB", 5),
    ];
    let artifacts = vec![artifact("file:///tmp/classes", None, false)];
    let context = build_context(classes, &artifacts);
    let targets = context.analysis_target_classes();
    assert_eq!(context.class_artifact_uri(&targets[0]), None);
    assert_eq!(context.class_artifact_uri(&targets[1]), None);
    assert_eq!(context.artifact_uri(0), Some("file:///tmp/classes"));
    assert_eq!(context.artifact_uri(-1), None);
}

#[test]
fn parent_cycles_without_targets_are_not_targets() {
    let classes = vec![
        class_with_artifact("com/example/ClassA", 0),
        class_with_artifact("com/example/ClassB", 2),
    ];
    let artifacts = vec![
        artifact("file:///tmp/a.jar", Some(1), false),
        artifact("file:///tmp/b.jar", Some(0), false),
        artifact("file:///tmp/c.jar", None, true),
    ];
    let context = build_context(classes, &artifacts);
    assert_eq!(context.analysis_target_classes().len(), 1);
    assert_eq!(context.analysis_target_classes()[0].name, "com/example/ClassB");
    assert_eq!(context.dependency_classes()[0].name, "com/example/ClassA");
}

#[test]
fn logging_frameworks_are_detected_from_descriptors_and_references() {
    let mut with_slf4j = class_with_artifact("com/example/A", 0);
    with_slf4j.referenced_classes = vec!["org/slf4j/LoggerFactory".to_string()];
    let mut with_log4j = class_with_artifact("com/example/B", 0);
    with_log4j.super_name = Some("org/apache/logging/log4j/message/Message".to_string());
    let context = build_context(vec![with_slf4j, with_log4j], &[]);
    assert!(context.has_slf4j());
    assert!(context.has_log4j2());

    let plain = class_with_artifact("com/example/C", 0);
    let context = build_context(vec![plain], &[]);
    assert!(!context.has_slf4j());
    assert!(!context.has_log4j2());
}
