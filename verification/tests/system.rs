use classify::filepath::is_file_path;
use classify::pattern::is_regex;
use classify::registry::is_registry_key;
use classify::sql::is_sql;

#[test]
fn test_is_registry_key() {
    // valid
    assert!(is_registry_key(
        "SOFTWARE\\Microsoft\\Windows NT\\CurrentVersion"
    ));
    assert!(is_registry_key(
        "SOFTWARE\\Microsoft\\Windows\\CurrentVersion"
    ));
    assert!(is_registry_key(
        "HKLM\\SOFTWARE\\Microsoft\\Windows\\CurrentVersion"
    ));
    assert!(is_registry_key(
        "HKEY_LOCAL_MACHINE\\SOFTWARE\\Microsoft\\Windows\\CurrentVersion"
    ));

    // invalid
    assert!(!is_registry_key("This\nIs\\aRegistryKey"));
    assert!(!is_registry_key("^[U][0-9]{12,15}$"));
}

#[test]
fn test_is_sql() {
    // valid
    assert!(is_sql("SELECT * FROM xyz"));
    assert!(is_sql("SELECT * FROM xyz WHERE x LIKE '%y%';"));
    assert!(is_sql(
        "INSERT INTO Country(CountryID,CountryName) VALUES (1,'United States')"
    ));
    assert!(is_sql(
        r#"CREATE TABLE table_name (
        column1 INTEGER,
        column2 VARCHAR2,
        column3 INTEGE);"#
    ));

    // invalid
    assert!(!is_registry_key(
        "Select this is NOT a SQL Query WHERE it could get selected="
    ));
}

#[test]
fn test_is_regex() {
    // valid
    assert!(is_regex(r"^[U][0-9]{12,15}$"));
    assert!(is_regex(r"a{12,15}$"));
    assert!(is_regex(r"//[^\r\n]*[\r\n]"));
    assert!(is_regex(r"[^i*&2@]"));
    assert!(is_regex(r"^dog"));
    assert!(is_regex(r"cat$"));
}

#[test]
fn test_is_file_path() {
    // valid
    assert!(is_file_path("/home/user/Documents/foo.rar"));
    assert!(is_file_path("../test.exe"));
    assert!(is_file_path("\\\\Server2\\Share\\Test\\Foo.exe"));
    assert!(is_file_path("C:\\Program Files\\foo\\bar.exe"));
    assert!(is_file_path("c:\\Personal\\MyFolder\\MyFile.exe"));
    assert!(is_file_path("..\\..\\folder\\file.exe"));
    assert!(is_file_path("z:\\folder\\file.jpeg"));

    // invalid
    assert!(!is_file_path(
        "HKLM\\SOFTWARE\\Microsoft\\Windows\\CurrentVersion"
    ))
}
