use cargo_toml_fmt::cargo_toml::CargoToml;
use cargo_toml_fmt::toml_config::TomlFormatConfig;

#[test]
fn append_new_line_after_section() {
    let before = r#"[package]
[b]
a="a" # A description of the package.
[c]
b="b" # A description of the package.
c="c" # A description of the package.
[d]
d="d" # A description of the package.
"#;
    let after = r#"[package]

[b]
a="a" # A description of the package.

[c]
b="b" # A description of the package.
c="c" # A description of the package.

[d]
d="d" # A description of the package.
"#;
    let mut config = TomlFormatConfig::new();
    config.add_newline_after_section = true;
    let mut toml = CargoToml::from_config(before.to_string(), config).unwrap();
    toml.format().unwrap();
    assert_eq!(toml.toml_document.to_string(), after);
}

#[test]
fn formatting_add_spaces_between_value_assignments() {
    let before = r#"[a]
    a="a"
    b= "b"
    c ="b"
    d = "b"
    "#;
    let after = r#"[a]
a = "a"
b = "b"
c = "b"
d = "b"
    "#;
    let mut config = TomlFormatConfig::new();
    config.table_formatting = true;
    let mut toml = CargoToml::from_config(before.to_string(), config).unwrap();
    toml.format().unwrap();
    assert_eq!(toml.toml_document.to_string(), after);
}

#[test]
fn formatting_adds_spaces_between_table_assignments() {
    let before = r#"[a] 
    e ={a="b"}  
    f={a= "b"}  
    g ={a ="b"} 
    h ={a = "b"}    # test
"#;
    let after = r#"[a]
e = { a = "b" }
f = { a = "b" }
g = { a = "b" }
h = { a = "b" } # test
"#;
    let mut config = TomlFormatConfig::new();
    config.table_formatting = true;
    let mut toml = CargoToml::from_config(before.to_string(), config).unwrap();
    toml.format().unwrap();
    assert_eq!(toml.toml_document.to_string(), after);
}

#[test]
fn formatting_wrap_line_and_format_array() {
    let before = r#"[a]
[b]
a=["a"]
b=["a","b"]
c=["a","b"]
d=["a","b","c"]
e=["a","b","c","d"]
f=["a","b","c","d","e"]
g=["a","b","c","d","e","f"]
h=["a","b","c","d","e","f","g"]
    "#;
    let after = r#"[a]
[b]
a=["a"]
b=["a", "b"]
c=["a", "b"]
d=[
    "a",
    "b",
    "c"
]
e=[
    "a",
    "b",
    "c",
    "d"
]
f=[
    "a",
    "b",
    "c",
    "d",
    "e"
]
g=[
    "a",
    "b",
    "c",
    "d",
    "e",
    "f"
]
h=[
    "a",
    "b",
    "c",
    "d",
    "e",
    "f",
    "g"
]
    "#;
    let mut config = TomlFormatConfig::new();
    config.wrap_array = Some(15);
    let mut toml = CargoToml::from_config(before.to_string(), config).unwrap();
    toml.format().unwrap();
    assert_eq!(toml.toml_document.to_string(), after);
}

#[test]
fn formatting_wrap_table() {
    let before = r#"[dependencies]
a={version="0.4.1"}
b={version="0.4.1",path="some_path"}
c={version="0.4.1",path="some_path",features=["a","b"]}
    "#;
    let after = r#"[dependencies]
a={version="0.4.1"}

[dependencies.b]
version = "0.4.1"
path = "some_path"

[dependencies.c]
version = "0.4.1"
path = "some_path"
features = ["a","b"]
    "#;
    let mut config = TomlFormatConfig::new();
    config.wrap_table = Some(20);
    let mut toml = CargoToml::from_config(before.to_string(), config).unwrap();
    toml.format().unwrap();
    assert_eq!(toml.toml_document.to_string(), after);
}

#[test]
fn comments() {
    let before = r#"[dependencies]
a={version="0.4.1"}
b={version="0.4.1",path="some_path"}
c={version="0.4.1",path="some_path",features=["a","b"]}
    "#;
    let after = r#"[dependencies]
a={version="0.4.1"}

[dependencies.b]
version = "0.4.1"
path = "some_path"

[dependencies.c]
version = "0.4.1"
path = "some_path"
features = ["a","b"]
    "#;
    let mut config = TomlFormatConfig::new();
    config.wrap_table = Some(20);
    let mut toml = CargoToml::from_config(before.to_string(), config).unwrap();
    toml.format().unwrap();
    assert_eq!(toml.toml_document.to_string(), after);
}

#[test]
fn formatting_adds_new_line_after_section() {
    let before = r#"[package]
[b]
a="a" # A description of the package.
[c]
b="b" # A description of the package.
c="c" # A description of the package.
[d]
d="d" # A description of the package.
"#;
    let after = r#"[package]

[b]
a="a" # A description of the package.

[c]
b="b" # A description of the package.
c="c" # A description of the package.

[d]
d="d" # A description of the package.
"#;
    let mut config = TomlFormatConfig::new();
    config.add_newline_after_section = true;
    let mut toml = CargoToml::from_config(before.to_string(), config).unwrap();
    toml.format().unwrap();
    assert_eq!(toml.toml_document.to_string(), after);
}

