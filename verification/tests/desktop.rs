use synthia::desktop::{document_file_name, export_file_name, filename_from_path, title_from_stem};

#[test]
fn title_is_the_file_name_without_directory_or_extension() {
    assert_eq!(filename_from_path("/home/user/designs/poster.apollo"), "poster");
    assert_eq!(filename_from_path("archive.tar.gz"), "archive.tar");
    assert_eq!(filename_from_path(".hidden"), ".hidden");
    assert_eq!(filename_from_path("notes"), "notes");
}

#[test]
fn a_path_without_a_file_name_is_untitled() {
    assert_eq!(filename_from_path(""), "Untitled");
    assert_eq!(filename_from_path("/"), "Untitled");
    assert_eq!(filename_from_path("designs/.."), "Untitled");
}

#[test]
fn title_falls_back_to_untitled() {
    assert_eq!(title_from_stem(Some("flyer".to_string())), "flyer");
    assert_eq!(title_from_stem(None), "Untitled");
}

#[test]
fn offered_file_names_carry_the_extension() {
    assert_eq!(document_file_name("poster"), "poster.apollo");
    assert_eq!(export_file_name("poster", "svg"), "poster.svg");
    assert_eq!(export_file_name("", "png"), ".png");
}
