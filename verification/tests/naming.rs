use calamus::naming::{output_file_name, paged_file_name, split_main_file_name, split_rect_file_name};

#[test]
fn paged_names_pad_page_numbers() {
    assert_eq!(paged_file_name("myfile", 0, "png"), "myfile_00.png");
    assert_eq!(paged_file_name("myfile", 7, "svg"), "myfile_07.svg");
    assert_eq!(paged_file_name("notes", 12, "png"), "notes_12.png");
    assert_eq!(paged_file_name("n", 123, ""), "n_123.");
}

#[test]
fn split_names() {
    assert_eq!(split_main_file_name("book", 3), "book_p03_main.svg");
    assert_eq!(split_rect_file_name("book", 3, 0), "book_p03_rect00.svg");
    assert_eq!(split_rect_file_name("book", 10, 11), "book_p10_rect11.svg");
}

#[test]
fn directory_output_names() {
    assert_eq!(output_file_name("myfile", 0, "png", false), "myfile.png");
    assert_eq!(output_file_name("myfile", 3, "svg", false), "myfile.svg");
    assert_eq!(output_file_name("myfile", 0, "png", true), "myfile_00.png");
    assert_eq!(output_file_name("myfile", 11, "svg", true), "myfile_11.svg");
}

