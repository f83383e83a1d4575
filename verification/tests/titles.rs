use mdreader::titles::{dir_display_name, display_name_for, path_stem, slug_to_title, title_of};

#[test]
fn slugs_become_titles() {
    assert_eq!(slug_to_title("part-1-vision"), "Part 1 Vision");
    assert_eq!(slug_to_title("ux-analysis"), "Ux Analysis");
    assert_eq!(slug_to_title("snake_case_name"), "Snake Case Name");
    assert_eq!(slug_to_title("--a__b--"), "A B");
    assert_eq!(slug_to_title(""), "");
    assert_eq!(slug_to_title("éclair-ßa"), "Éclair SSa");
    assert_eq!(slug_to_title("keepCASE"), "KeepCASE");
}

#[test]
fn directory_names_become_titles() {
    assert_eq!(dir_display_name("part-1-vision"), "Part 1 — Vision");
    assert_eq!(dir_display_name("PART-12-two-words"), "Part 12 — Two Words");
    assert_eq!(dir_display_name("part-x-vision"), "Part X Vision");
    assert_eq!(dir_display_name("appendices"), "Appendices");
    assert_eq!(dir_display_name("part-1"), "Part 1");
}

#[test]
fn documents_are_named_by_their_heading() {
    assert_eq!(display_name_for("intro\n#  The Title \nx\n# Other", "/d/some-file.md"), "The Title");
    assert_eq!(display_name_for("## Sub\ntext", "/d/some-file.md"), "Some File");
    assert_eq!(display_name_for("", "/d/notes.tar.md"), "Notes.tar");
    assert_eq!(title_of("# \ntext", "a-b"), "A B");
    assert_eq!(title_of("# # Twice", "a-b"), "Twice");
}

#[test]
fn stems_are_file_names_without_extension() {
    assert_eq!(path_stem("/d/some-file.md"), "some-file");
    assert_eq!(path_stem("some.file.md"), "some.file");
    assert_eq!(path_stem("/d/.hidden"), ".hidden");
    assert_eq!(path_stem("/d/none"), "none");
    assert_eq!(path_stem("/"), "");
}

#[test]
fn separators_and_repetition_make_no_difference() {
    let title = slug_to_title("a-long_slug");
    assert_eq!(title, "A Long Slug");
    assert_eq!(slug_to_title(&title), title);
    assert_eq!(slug_to_title("a-long-slug"), title);
    assert_eq!(slug_to_title("_a--long_-slug_"), title);
    assert_eq!(slug_to_title("_a--b_"), "A B");
    assert_eq!(slug_to_title("aBC-dEF"), "ABC DEF");
}
