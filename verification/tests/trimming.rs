use cargo_toml_fmt::cargo_toml::CargoToml;
use cargo_toml_fmt::toml_config::TomlFormatConfig;

#[test]
fn trimming_trims_empty_spaces_section_keys() {
    let before = r#"[ a]
[b ]
a="a" # A description of the package.
[ c ]
b="b" # A description of the package.
"#;
    let after = r#"[a]
[b]
a="a" # A description of the package.
[c]
b="b" # A description of the package.
"#;
    let mut config = TomlFormatConfig::new();
    config.trim_section_key_names = true;
    let mut toml = CargoToml::from_config(before.to_string(), config).unwrap();
    toml.format().unwrap();
    assert_eq!(toml.toml_document.to_string(), after);
}

#[test]
fn trimming_trims_empty_spaces_keys() {
    let before = r#"[a]
[b]

    a="a" # A description of the package.
[c]
    b="b" # A description of the package.
        c="c" # A description of the package.


[d] 
    
    d="d" # A description of the package.
"#;
    let after = r#"[a]
[b]
a="a" # A description of the package.
[c]
b="b" # A description of the package.
c="c" # A description of the package.
[d]
d="d" # A description of the package.
"#;
    let mut config = TomlFormatConfig::new();
    config.trim_section_item_keys = true;
    let mut toml = CargoToml::from_config(before.to_string(), config).unwrap();
    toml.format().unwrap();
    assert_eq!(toml.toml_document.to_string(), after);
}

#[test]
fn trimming_trims_quotes_from_keys() {
    let before = r#"[a]
    [b]
    "a"="a"
    [c]
    b={"a"={"a"="b"}} 
    "#;
    let after = r#"[a]
    [b]
    a="a"
    [c]
    b={a={a="b"}} 
    "#;
    let mut config = TomlFormatConfig::new();
    config.trim_quotes_table_keys = true;
    let mut toml = CargoToml::from_config(before.to_string(), config).unwrap();
    toml.format().unwrap();
    assert_eq!(toml.toml_document.to_string(), after);
}

#[test]
fn trimming_around_comments() {
    let before = r#"[a] 
    a = { a = "b" } # A description of the package.
    b = { a = "b" }       # A description of the package.        
    c = "b"   #    A description of the package.
    d = []  # A description of the package.
    "#;
    let after = r#"[a]
a = { a = "b" } # A description of the package.
b = { a = "b" } # A description of the package.
c = "b" #    A description of the package.
d = [] # A description of the package.
    "#;
    let mut config = TomlFormatConfig::new();
    config.table_formatting = true;
    let mut toml = CargoToml::from_config(before.to_string(), config).unwrap();
    toml.format().unwrap();
    assert_eq!(toml.toml_document.to_string(), after);
}

#[test]
fn comments_stress_test() {
    let before = r#"[a] 
    # comment 1
    a = { a = "b" }  # comment 2


    # comment 2

    b = false
    # comment 1

    # comment 3
c = [""]

    d = [""] # comment 4
    [b]
    # comment 1
    a = { a = "b" }  # comment 2


    # comment 2

    b = false
    # comment 1

    # comment 3
c = [""]

    d = [""] # comment 4
    "#;
    let after = r#"[a]
# comment 1
a = { a = "b" } # comment 2
# comment 2
b = false
# comment 1
# comment 3
c = [""]
d = [""] # comment 4
[b]
# comment 1
a = { a = "b" } # comment 2
# comment 2
b = false
# comment 1
# comment 3
c = [""]
d = [""] # comment 4
    "#;
    let mut config = TomlFormatConfig::new();
    config.table_formatting = true;
    let mut toml = CargoToml::from_config(before.to_string(), config).unwrap();
    toml.format().unwrap();
    assert_eq!(toml.toml_document.to_string(), after);
}

#[test]
fn format_adds_new_line_after_section() {
    let before = r#"[a]
[b]
a="a" # A description of the package.
[c]
b="b" # A description of the package.
c="c" # A description of the package.
[d]
d="d" # A description of the package.
"#;
    let after = r#"[a]

[b]
a="a" # A description of the package.

[c]
b="b" # A description of the package.
c="c" # A description of the package.

[d]
d="d" # A description of the package.
"#;
    let mut config = TomlFormatConfig::new();
    config.add_newline_after_section = true;
    let mut toml = CargoToml::from_config(before.to_string(), config).unwrap();
    toml.format().unwrap();
    assert_eq!(toml.toml_document.to_string(), after);
}

#[test]
fn format_trims_empty_spaces_section_keys() {
    let before = r#"[ a]
[b ]
a="a" # A description of the package.
[ c ]
b="b" # A description of the package.
"#;
    let after = r#"[a]
[b]
a="a" # A description of the package.
[c]
b="b" # A description of the package.
"#;
    let mut config = TomlFormatConfig::new();
    config.trim_section_key_names = true;
    let mut toml = CargoToml::from_config(before.to_string(), config).unwrap();
    toml.format().unwrap();
    assert_eq!(toml.toml_document.to_string(), after);
}

#[test]
fn format_trims_empty_spaces_keys() {
    let before = r#"[a]
[b]

    a="a" # A description of the package.
[c]
    b="b" # A description of the package.
        c="c" # A description of the package.


[d] 
    
    d="d" # A description of the package.
"#;
    let after = r#"[a]
[b]
a="a" # A description of the package.
[c]
b="b" # A description of the package.
c="c" # A description of the package.
[d]
d="d" # A description of the package.
"#;
    let mut config = TomlFormatConfig::new();
    config.trim_section_item_keys = true;
    let mut toml = CargoToml::from_config(before.to_string(), config).unwrap();
    toml.format().unwrap();
    assert_eq!(toml.toml_document.to_string(), after);
}

#[test]
fn format_trims_quotes_from_keys() {
    let before = r#"[a]
    [b]
    "a"="a" # A description of the package.
    [c]
    "b"="b" # A description of the package.
    "#;
    let after = r#"[a]
    [b]
    a="a" # A description of the package.
    [c]
    b="b" # A description of the package.
    "#;
    let mut config = TomlFormatConfig::new();
    config.trim_quotes_table_keys = true;
    let mut toml = CargoToml::from_config(before.to_string(), config).unwrap();
    toml.format().unwrap();
    assert_eq!(toml.toml_document.to_string(), after);
}

