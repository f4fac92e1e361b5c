use basic_bulk_renamer::resource::resource_path;

#[test]
fn test_resource_path() {
    assert_eq!(
        resource_path("test.xml"),
        "/io/github/cat-in-136/gtk3-basic-bulk-renamer/test.xml"
    );
}

#[test]
fn resource_path_of_nested_and_empty_names() {
    assert_eq!(
        resource_path("ui/window.ui"),
        "/io/github/cat-in-136/gtk3-basic-bulk-renamer/ui/window.ui"
    );
    assert_eq!(resource_path(""), "/io/github/cat-in-136/gtk3-basic-bulk-renamer/");
}
