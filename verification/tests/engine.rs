use tf_plan_format::template::Engine;

#[test]
fn mod_default() {
    assert_eq!(Engine::Tera, "tera".parse().unwrap());
}

#[test]
fn mod_invalid() {
    let result = "invalid".parse::<Engine>();
    assert_eq!(true, result.is_err());
}

#[test]
fn mod_invalid_message() {
    let result = "invalid".parse::<Engine>();
    assert_eq!(
        result.unwrap_err().message(),
        "Invalid template engine: invalid"
    );
}

#[test]
fn utils_path() {
    assert_eq!(
        tf_plan_format::utils::test::get_test_data_file_path("plans/full.json"),
        "tests/data/plans/full.json"
    );
}
