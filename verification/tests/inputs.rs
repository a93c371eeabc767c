use inspequte::inputs::{
    ExpandAction, ExpandEvent, InputError, ListingItem, ListingLine, classify_listing_line, expand_start, expand_step, filter_paths, has_extension,
    join_path, listing_entries, parent_path, trim,
};

#[test]
fn trim_strips_unicode_white_space_at_both_ends() {
    assert_eq!(trim("  \tlib/a.jar \u{3000}\n"), "lib/a.jar");
    assert_eq!(trim("a b"), "a b");
    assert_eq!(trim(" \u{2003} "), "");
}

#[test]
fn listing_lines_are_classified() {
    assert_eq!(classify_listing_line(""), ListingLine::Skip);
    assert_eq!(classify_listing_line("   "), ListingLine::Skip);
    assert_eq!(classify_listing_line("  # a comment"), ListingLine::Skip);
    assert_eq!(classify_listing_line(" @more.txt "), ListingLine::Nested("@more.txt".to_string()));
    assert_eq!(classify_listing_line("\tbuild/classes\t"), ListingLine::Entry("build/classes".to_string()));
}

/// Runs the expansion against an in-memory file system whose paths are
/// already canonical.
fn expand_with(args: &[&str], base_dir: &str, files: &[(&str, &str)]) -> Result<Vec<String>, InputError> {
    let mut state = expand_start(base_dir.to_string(), args.iter().map(|a| a.to_string()).collect());
    let mut event = ExpandEvent::Next;
    for _ in 0..10_000 {
        match expand_step(&mut state, event) {
            ExpandAction::Continue => event = ExpandEvent::Next,
            ExpandAction::Resolve(p) => {
                event = if files.iter().any(|(f, _)| *f == p) {
                    ExpandEvent::Resolved(p)
                } else {
                    ExpandEvent::Failed(format!("failed to resolve {}", p))
                }
            }
            ExpandAction::Read(p) => {
                let content = files.iter().find(|(f, _)| *f == p).map(|(_, c)| c.to_string()).unwrap();
                event = ExpandEvent::Read(content);
            }
            ExpandAction::Done(paths) => return Ok(paths),
            ExpandAction::Fail(e) => return Err(e),
        }
    }
    panic!("expansion did not end");
}

#[test]
fn expand_path_args_reads_files_and_resolves_relative_entries() {
    let files = [
        ("/tmp/t/nested.txt", "lib/dependency.jar\n"),
        ("/tmp/t/inputs.txt", "# input classes\nclasses\n@nested.txt\n\n"),
    ];
    let expanded = expand_with(&["@/tmp/t/inputs.txt"], ".", &files).expect("expand inputs");
    assert_eq!(expanded, vec!["/tmp/t/classes".to_string(), "/tmp/t/lib/dependency.jar".to_string()]);
}

#[test]
fn expand_path_args_errors_on_missing_file() {
    let result = expand_with(&["@/tmp/t/missing.txt"], ".", &[]);
    assert!(result.is_err());
    assert_eq!(result, Err(InputError::Unreadable("failed to resolve /tmp/t/missing.txt".to_string())));
}

#[test]
fn filter_missing_paths_ignores_missing_directory() {
    let paths = vec!["/tmp/t/classes".to_string(), "/tmp/t/missing-dir".to_string()];
    let filtered = filter_paths(&paths, &vec![true, false]).expect("filter paths");
    assert_eq!(filtered, vec!["/tmp/t/classes".to_string()]);
}

#[test]
fn filter_missing_paths_rejects_missing_file() {
    let result = filter_paths(&vec!["/tmp/t/missing.jar".to_string()], &vec![false]);
    assert!(result.is_err());
    assert_eq!(result, Err(InputError::NotFound("/tmp/t/missing.jar".to_string())));
}

#[test]
fn filter_paths_stops_at_first_missing_file_with_extension() {
    let paths = vec!["a.jar".to_string(), "dir".to_string(), "b.jar".to_string(), "c.jar".to_string()];
    assert_eq!(filter_paths(&paths, &vec![true, false, false, false]), Err(InputError::NotFound("b.jar".to_string())));
    assert_eq!(
        filter_paths(&paths, &vec![true, false, true, true]),
        Ok(vec!["a.jar".to_string(), "b.jar".to_string(), "c.jar".to_string()])
    );
    assert_eq!(filter_paths(&vec![], &vec![]), Ok(vec![]));
}

#[test]
fn listing_entries_skip_comments_and_join_relative_paths() {
    let items = listing_entries("# c\n\n lib/a.jar \r\n @more.txt\n/abs/b.jar", "/w");
    assert_eq!(
        items,
        vec![
            ListingItem::Path("/w/lib/a.jar".to_string()),
            ListingItem::Reference("@more.txt".to_string()),
            ListingItem::Path("/abs/b.jar".to_string()),
        ]
    );
    assert_eq!(listing_entries("", "/w"), vec![]);
}

#[test]
fn path_helpers_follow_unix_rules() {
    assert_eq!(join_path("/w", "x.jar"), "/w/x.jar");
    assert_eq!(join_path("/w/", "x.jar"), "/w/x.jar");
    assert_eq!(join_path("/w", "/abs/x.jar"), "/abs/x.jar");
    assert_eq!(join_path("", "x.jar"), "x.jar");
    assert_eq!(parent_path("/w/list.txt"), "/w");
    assert_eq!(parent_path("list.txt"), "");
    assert!(has_extension("a.jar"));
    assert!(!has_extension("classes"));
    assert!(!has_extension(".hidden"));
}

#[test]
fn expansion_keeps_plain_arguments_and_nested_order() {
    let files = [("/w/list.txt", "a.jar\n@sub/inner.txt\nz.jar\n"), ("/w/sub/inner.txt", "b.jar\n# x\n")];
    let expanded = expand_with(&["x.jar", "@list.txt", "y"], "/w", &files).unwrap();
    assert_eq!(expanded, vec!["x.jar", "/w/a.jar", "/w/sub/b.jar", "/w/z.jar", "y"]);
}

#[test]
fn expansion_refuses_circular_and_empty_references() {
    let files = [("/w/a.txt", "@b.txt\n"), ("/w/b.txt", "@a.txt\n")];
    assert_eq!(expand_with(&["@a.txt"], "/w", &files), Err(InputError::Circular("/w/a.txt".to_string())));
    assert_eq!(expand_with(&["@"], "/w", &[]), Err(InputError::EmptyReference));
    let files = [("/w/a.txt", "@\n")];
    assert_eq!(expand_with(&["@a.txt"], "/w", &files), Err(InputError::EmptyReference));
}

#[test]
fn a_listing_read_twice_in_sequence_is_not_circular() {
    let files = [("/w/a.txt", "one.jar\n")];
    let expanded = expand_with(&["@a.txt", "@a.txt"], "/w", &files).unwrap();
    assert_eq!(expanded, vec!["/w/one.jar", "/w/one.jar"]);
}
