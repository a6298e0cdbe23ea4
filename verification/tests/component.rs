use convert_path::casing::recase;
use convert_path::component::{attach_extension, convert_component, find_last_dot, has_no_name};
use convert_path::{Convention, PathConvertError};

#[test]
fn component_title_to_snake_keeps_extension() {
    let actual = convert_component("Some File.jpg".as_bytes(), None, Convention::SnakeCase);

    assert_eq!(Ok(String::from("some_file.jpg")), actual);
}

#[test]
fn component_without_extension_is_all_stem() {
    let actual = convert_component("Some File".as_bytes(), None, Convention::KebabCase);

    assert_eq!(Ok(String::from("some-file")), actual);
}

#[test]
fn component_extension_is_never_recased() {
    let actual = convert_component("holiday photo.JPG".as_bytes(), None, Convention::UpperSnakeCase);

    assert_eq!(Ok(String::from("HOLIDAY_PHOTO.JPG")), actual);
}

#[test]
fn component_splits_at_the_last_dot_only() {
    let actual = convert_component("my archive.tar.gz".as_bytes(), None, Convention::SnakeCase);

    assert_eq!(Ok(String::from("my_archive.tar.gz")), actual);
}

#[test]
fn component_keeps_an_empty_extension() {
    let actual = convert_component("Some File.".as_bytes(), None, Convention::SnakeCase);

    assert_eq!(Ok(String::from("some_file.")), actual);
}

#[test]
fn component_that_is_all_extension_stays() {
    let actual = convert_component(".gitignore".as_bytes(), None, Convention::UpperSnakeCase);

    assert_eq!(Ok(String::from(".gitignore")), actual);
}

#[test]
fn component_single_word_changes_case_only() {
    assert_eq!(
        Ok(String::from("readme.md")),
        convert_component("README.md".as_bytes(), None, Convention::SnakeCase)
    );
    assert_eq!(
        Ok(String::from("Readme.md")),
        convert_component("README.md".as_bytes(), None, Convention::TitleCase)
    );
    assert_eq!(
        Ok(String::from("README.md")),
        convert_component("readme.md".as_bytes(), None, Convention::UpperFlatCase)
    );
}

#[test]
fn component_to_each_convention() {
    let name = "my first file.txt".as_bytes();

    assert_eq!(Ok(String::from("My First File.txt")), convert_component(name, None, Convention::TitleCase));
    assert_eq!(Ok(String::from("myfirstfile.txt")), convert_component(name, None, Convention::FlatCase));
    assert_eq!(Ok(String::from("MYFIRSTFILE.txt")), convert_component(name, None, Convention::UpperFlatCase));
    assert_eq!(Ok(String::from("myFirstFile.txt")), convert_component(name, None, Convention::CamelCase));
    assert_eq!(Ok(String::from("MyFirstFile.txt")), convert_component(name, None, Convention::UpperCamelCase));
    assert_eq!(Ok(String::from("my_first_file.txt")), convert_component(name, None, Convention::SnakeCase));
    assert_eq!(Ok(String::from("MY_FIRST_FILE.txt")), convert_component(name, None, Convention::UpperSnakeCase));
    assert_eq!(Ok(String::from("my-first-file.txt")), convert_component(name, None, Convention::KebabCase));
}

#[test]
fn component_source_convention_decides_the_words() {
    let name = "2020-04-16_my_cat_cali.jpg".as_bytes();

    assert_eq!(
        Ok(String::from("2020 04 16 My Cat Cali.jpg")),
        convert_component(name, None, Convention::TitleCase)
    );
    assert_eq!(
        Ok(String::from("2020-04-16 My Cat Cali.jpg")),
        convert_component(name, Some(Convention::SnakeCase), Convention::TitleCase)
    );
}

#[test]
fn component_round_trip_with_source_conventions() {
    let there = convert_component(
        "some_file_name.txt".as_bytes(),
        Some(Convention::SnakeCase),
        Convention::CamelCase,
    );
    assert_eq!(Ok(String::from("someFileName.txt")), there);

    let back = convert_component(
        there.unwrap().as_bytes(),
        Some(Convention::CamelCase),
        Convention::SnakeCase,
    );
    assert_eq!(Ok(String::from("some_file_name.txt")), back);
}

#[test]
fn component_round_trip_is_lost_through_flat_case() {
    let there = convert_component(
        "some_file.txt".as_bytes(),
        Some(Convention::SnakeCase),
        Convention::FlatCase,
    );
    assert_eq!(Ok(String::from("somefile.txt")), there);

    let back = convert_component(
        there.unwrap().as_bytes(),
        Some(Convention::FlatCase),
        Convention::SnakeCase,
    );
    assert_eq!(Ok(String::from("somefile.txt")), back);
}

#[test]
fn component_with_text_beyond_ascii() {
    let actual = convert_component("Granat Äpfel.txt".as_bytes(), None, Convention::KebabCase);

    assert_eq!(Ok(String::from("granat-äpfel.txt")), actual);
}

#[test]
fn component_of_dots_and_wide_characters() {
    assert_eq!(
        Ok(String::from("...")),
        convert_component("...".as_bytes(), None, Convention::SnakeCase)
    );
    assert_eq!(
        Ok(String::from("É.é")),
        convert_component("é.é".as_bytes(), None, Convention::UpperSnakeCase)
    );
    assert_eq!(
        Ok(String::from("a_é.txt")),
        convert_component("aÉ.txt".as_bytes(), None, Convention::SnakeCase)
    );
    assert_eq!(
        Ok(String::from(".hidden_file.txt")),
        convert_component(".hidden file.txt".as_bytes(), None, Convention::SnakeCase)
    );
}

#[test]
fn component_of_separators_only_loses_its_stem() {
    assert_eq!(
        Ok(String::from(".txt")),
        convert_component("---.txt".as_bytes(), None, Convention::SnakeCase)
    );
    assert_eq!(
        Ok(String::from("")),
        convert_component("-".as_bytes(), None, Convention::SnakeCase)
    );
}

#[test]
fn component_that_is_not_utf8_is_refused() {
    let name: [u8; 4] = [0x66, 0x6f, 0xff, 0x6f];

    let actual = convert_component(&name, None, Convention::SnakeCase);

    assert_eq!(Err(PathConvertError::InvalidUtf8Path), actual);
}

#[test]
fn component_with_a_cut_off_character_is_refused() {
    let name: [u8; 3] = [0x61, 0x2e, 0xc3];

    let actual = convert_component(&name, None, Convention::SnakeCase);

    assert_eq!(Err(PathConvertError::InvalidUtf8Path), actual);
}

#[test]
fn component_without_stem_and_extension_is_refused() {
    assert_eq!(
        Err(PathConvertError::InvalidPath),
        convert_component("".as_bytes(), None, Convention::SnakeCase)
    );
    assert_eq!(
        Err(PathConvertError::InvalidPath),
        convert_component(".".as_bytes(), None, Convention::SnakeCase)
    );
    assert_eq!(
        Err(PathConvertError::InvalidPath),
        convert_component("..".as_bytes(), None, Convention::SnakeCase)
    );
}

#[test]
fn recase_guesses_the_words_without_a_source() {
    assert_eq!("some_file", recase("Some File", None, Convention::SnakeCase));
    assert_eq!("someFile", recase("some-file", None, Convention::CamelCase));
    assert_eq!("SOME_FILE", recase("someFile", None, Convention::UpperSnakeCase));
}

#[test]
fn recase_goes_by_the_source_where_one_is_given() {
    assert_eq!(
        "somefile",
        recase("SomeFile", Some(Convention::UpperCamelCase), Convention::FlatCase)
    );
    assert_eq!(
        "Some-file Name",
        recase("some-file_name", Some(Convention::SnakeCase), Convention::TitleCase)
    );
}

#[test]
fn attach_extension_puts_a_dot_between() {
    assert_eq!("some_file.jpg", attach_extension(String::from("some_file"), Some("jpg")));
    assert_eq!("some_file.", attach_extension(String::from("some_file"), Some("")));
    assert_eq!("some_file", attach_extension(String::from("some_file"), None));
}

#[test]
fn find_last_dot_gives_the_last_one() {
    assert_eq!(Some(11), find_last_dot("archive.tar.gz".as_bytes()));
    assert_eq!(Some(0), find_last_dot(".gitignore".as_bytes()));
    assert_eq!(None, find_last_dot("Makefile".as_bytes()));
    assert_eq!(None, find_last_dot("".as_bytes()));
}

#[test]
fn has_no_name_tells_the_structural_segments() {
    assert!(has_no_name("".as_bytes()));
    assert!(has_no_name(".".as_bytes()));
    assert!(has_no_name("..".as_bytes()));
    assert!(!has_no_name("...".as_bytes()));
    assert!(!has_no_name(".a".as_bytes()));
    assert!(!has_no_name("a".as_bytes()));
    assert!(!has_no_name("a.".as_bytes()));
}
