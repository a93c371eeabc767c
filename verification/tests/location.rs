use inspequte::rules::location::{class_location, jar_container_uri, method_location_with_line};

#[test]
fn jar_container_uri_extracts_container() {
    let uri = "jar:file:///tmp/app.jar!/com/example/ClassA.class";
    assert_eq!(
        jar_container_uri(uri),
        Some("file:///tmp/app.jar".to_string())
    );
}

#[test]
fn jar_container_uri_rejects_other_schemes() {
    assert_eq!(jar_container_uri("file:///tmp/app.jar"), None);
    assert_eq!(
        jar_container_uri("jar:file:///tmp/app.jar"),
        Some("file:///tmp/app.jar".to_string())
    );
}

#[test]
fn method_location_points_into_class_file_with_line() {
    let location = method_location_with_line(
        "com/example/ClassA",
        "run",
        "()V",
        Some("file:///tmp/classes/com/example/ClassA.class"),
        Some(12),
    );
    assert_eq!(location.logical.name, "com/example/ClassA.run()V");
    assert_eq!(location.logical.kind, "function");
    let physical = location.physical.expect("physical location");
    assert_eq!(physical.uri, "file:///tmp/classes/com/example/ClassA.class");
    assert_eq!(physical.start_line, Some(12));
}

#[test]
fn method_location_in_jar_points_at_archive_without_line() {
    let location = method_location_with_line(
        "com/example/ClassA",
        "run",
        "()V",
        Some("jar:file:///tmp/app.jar!/com/example/ClassA.class"),
        Some(12),
    );
    let physical = location.physical.expect("physical location");
    assert_eq!(physical.uri, "file:///tmp/app.jar");
    assert_eq!(physical.start_line, None);
}

#[test]
fn method_location_for_source_file_keeps_line() {
    let location = method_location_with_line(
        "com/example/ClassA",
        "run",
        "()V",
        Some("file:///tmp/src/com/example/ClassA.java"),
        Some(3),
    );
    let physical = location.physical.expect("physical location");
    assert_eq!(physical.uri, "file:///tmp/src/com/example/ClassA.java");
    assert_eq!(physical.start_line, Some(3));
}

#[test]
fn class_location_without_artifact_is_logical_only() {
    let location = class_location("com/example/ClassA", None);
    assert_eq!(location.logical.name, "com/example/ClassA");
    assert_eq!(location.logical.kind, "type");
    assert!(location.physical.is_none());
}
