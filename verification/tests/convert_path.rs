use convert_path::{
    convert_basename, convert_component, convert_full, convert_full_except_prefix, Convention,
};

#[test]
fn test_convert_component_kebab_to_snake_no_from_case() {
    let expected = Ok(String::from("some_file.jpg"));

    let actual = convert_component("some-file.jpg".as_bytes(), None, Convention::SnakeCase);

    assert_eq!(expected, actual);
}

#[test]
fn test_convert_component_upper_camel_to_flat_with_from_case() {
    let expected = Ok(String::from("somefile.jpg"));

    let actual = convert_component(
        "SomeFile.jpg".as_bytes(),
        Some(Convention::UpperCamelCase),
        Convention::FlatCase,
    );

    assert_eq!(expected, actual);
}

#[test]
fn test_convert_basename_title_to_camel_no_from_case() {
    let expected = Ok("/An Absolute/Path To/someFile.jpg".as_bytes().to_vec());

    let actual = convert_basename(
        "/An Absolute/Path To/Some File.jpg".as_bytes(),
        None,
        Convention::CamelCase,
    );

    assert_eq!(expected, actual)
}

#[test]
fn test_convert_basename_upper_snake_to_kebab_no_from_case() {
    let expected = Ok("/An Absolute/Path To/some-file.jpg".as_bytes().to_vec());

    let actual = convert_basename(
        "/An Absolute/Path To/SOME_FILE.jpg".as_bytes(),
        Some(Convention::UpperSnakeCase),
        Convention::KebabCase,
    );

    assert_eq!(expected, actual)
}

#[test]
fn test_convert_full_camel_to_snake() {
    let expected = Ok("/an_absolute/path_to/some_file.jpg".as_bytes().to_vec());

    let actual = convert_full(
        "/anAbsolute/pathTo/someFile.jpg".as_bytes(),
        None,
        Convention::SnakeCase,
    );

    assert_eq!(expected, actual)
}

#[test]
fn test_convert_full_mixed_to_upper_snake_case() {
    let expected = Ok("/AN_ABSOLUTE/PATH_TO/SOME_FILE.jpg".as_bytes().to_vec());

    let actual = convert_full(
        "/An Absolute/path-to/someFile.jpg".as_bytes(),
        None,
        Convention::UpperSnakeCase,
    );

    assert_eq!(expected, actual)
}

#[test]
fn test_convert_except_prefix_no_prefix_match() {
    let expected = Ok("/SOME_PATH/PREFIX/AND_A/CHILD".as_bytes().to_vec());

    let actual = convert_full_except_prefix(
        "/some-path/prefix/and-a/child".as_bytes(),
        "/a/different/prefix".as_bytes(),
        None,
        Convention::UpperSnakeCase,
    );

    assert_eq!(expected, actual);
}

#[test]
fn test_convert_except_prefix_prefix_match() {
    let expected = Ok("/some-path/prefix/AND_A/CHILD".as_bytes().to_vec());

    let actual = convert_full_except_prefix(
        "/some-path/prefix/and-a/child".as_bytes(),
        "/some-path/prefix".as_bytes(),
        None,
        Convention::UpperSnakeCase,
    );

    assert_eq!(expected, actual);
}
