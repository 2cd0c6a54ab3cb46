use qingluan::paths::lexical_absolute_in;

#[test]
fn relative_paths_resolve_against_the_working_directory() {
    assert_eq!(lexical_absolute_in("/w/main", "../x/./y//"), "/w/x/y");
    assert_eq!(lexical_absolute_in("/w/./m/", ""), "/w/m");
    assert_eq!(lexical_absolute_in("/w", "."), "/w");
}

#[test]
fn absolute_paths_ignore_the_working_directory() {
    assert_eq!(lexical_absolute_in("/cwd", "/a/b/../c"), "/a/c");
    assert_eq!(lexical_absolute_in("/cwd", "//a///b/"), "/a/b");
}

#[test]
fn parent_of_the_root_stays_at_the_root() {
    assert_eq!(lexical_absolute_in("/", "../../a"), "/a");
    assert_eq!(lexical_absolute_in("/w", "/.."), "/");
}

#[test]
fn normalizing_twice_changes_nothing() {
    let once = lexical_absolute_in("/home/u", "proj/./sub/../ws/");
    assert_eq!(once, "/home/u/proj/ws");
    assert_eq!(lexical_absolute_in("/elsewhere", &once), once);
}
