use smells::data_sources::file_explorer::{FakeFileExplorer, FileExplorer, IFileExplorer};

#[test]
fn test_fake_file_explorer_with_empty_list_of_files_should_return_an_empty_list() {
    // Given
    let files_to_analyze = vec![];
    // When
    let fake_explorer1 = FakeFileExplorer::_new(files_to_analyze);
    // Then
    let expected_files_to_analyze: Vec<String> = vec![];
    assert_eq!(fake_explorer1.discover(), expected_files_to_analyze)
}

#[test]
fn test_fake_file_explorer_with_single_file_should_return_a_single_file() {
    // Given
    let files_to_analyze = vec![String::from("test_file")];
    // When
    let expected_files_to_analyze: Vec<String> = vec![String::from("test_file")];
    let fake_explorer1 = FakeFileExplorer::_new(files_to_analyze);
    // Then
    assert_eq!(fake_explorer1.discover(), expected_files_to_analyze)
}

#[test]
fn test_fake_file_explorer_with_multiple_files_should_return_all_files() {
    // Given
    let files_to_analyze = vec![String::from("test_file1"), String::from("test_file2")];
    // When
    let expected_files_to_analyze: Vec<String> =
        vec![String::from("test_file1"), String::from("test_file2")];
    let fake_explorer1 = FakeFileExplorer::_new(files_to_analyze);
    // Then
    assert_eq!(fake_explorer1.discover(), expected_files_to_analyze);
}

#[test]
fn fake_file_explorer_root_and_next() {
    let mut explorer = FakeFileExplorer::_new(vec![String::from("a"), String::from("b")]);
    assert_eq!(explorer.get_root(), "root");
    assert_eq!(explorer.next(), Some(String::from("b")));
    assert_eq!(explorer.next(), Some(String::from("a")));
    assert_eq!(explorer.next(), None);
}

#[test]
fn file_explorer_keeps_its_root_and_iterates_on_empty_paths() {
    let mut explorer = FileExplorer::new("some/root");
    assert_eq!(explorer.get_root(), "some/root");
    assert_eq!(explorer.next(), Some(String::new()));
    assert_eq!(explorer.get_root(), "some/root");
    assert_eq!(explorer.discovery_pattern(), "some/root/**/*");
}
