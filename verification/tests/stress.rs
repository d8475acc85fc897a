use cargo_toml_fmt::cargo_toml::CargoToml;
use cargo_toml_fmt::toml_config::TomlFormatConfig;

#[test]
fn format_toml() {
    let before = r#"

[ package ] 


"readme"=         "test"
authors = [""]
exclude     =        [""]
edition  = "1"
categories =            [""]


links= "linker"
default-run=    "cargo run"
include = [         ""  ]

autobins=      false

license-file    = "path"
        resolver = "resolver x"

description = "some description"


autobenches=    false
version  =        "0.0.0"       
publish = false
        documentation = "docs"              

rust-version = "1.6.3.0"
repository = "repo"
metadata=           "some metadata"
keywords= ["" ]


license=         "license"
workspace = "workspace"
autoexamples = false                
name = "some-crate"

homepage = "homepage"
    autotests =         false
build    = "path"

[build-dependencies]
cc = "1.0.3"

[[bin]]
name =  "cool-tool"
test = false
bench = false

[patch.crates-io]
foo = {         git = "https://github.com/example/foo" }
bar = { path    =      "my/local/bar" }

[features]
"default"  = [     "fancy-feature" ]
    fancy-feature   = [         "foo",   "bar"]

[dev-dependencies   ]
tempdir = "0.3"

[   dependencies]
time =      "0.1.12"
some-crate       = {     version =   "1.0", registry =    "crates.io", git = "http://github.com",          branch = "next",  features =  ["foo",         "bar"],  path = "hello_utils" }

[profile.dev]
"opt-level" = 1                      # Use slightly better optimizations.
overflow-checks = false                 # Disable integer overflow checks.          
[[example]]         
        

name = "foo"



crate-type = [          "staticlib"               ]


[[bin]]

name = "cool-tool-2"
test = false
bench = false

[workspace]
members = ["member1", "path/to/member2", "crates/*"]
exclude = ["crates/foo", "path/to/other"]

[replace]
"foo:0.1.0" = { git = 'https://github.com/example/foo' }
"bar:1.0.2" = { path = 'my/local/bar' }

[lib] 
crate-type = ["cdylib"]
bench = false
"#;
    let after = r#"[package]
name = "some-crate"
version = "0.0.0"
authors = [""]
edition = "1"
rust-version = "1.6.3.0"
description = "some description"
documentation = "docs"
readme = "test"
homepage = "homepage"
repository = "repo"
license = "license"
license-file = "path"
keywords = [""]
categories = [""]
workspace = "workspace"
build = "path"
links = "linker"
exclude = [""]
include = [""]
publish = false
metadata = "some metadata"
default-run = "cargo run"
autobins = false
autoexamples = false
autotests = false
autobenches = false
resolver = "resolver x"

[lib]
bench = false
crate-type = ["cdylib"]

[[bin]]
bench = false
name = "cool-tool"
test = false

[[bin]]
bench = false
name = "cool-tool-2"
test = false

[[example]]
crate-type = ["staticlib"]
name = "foo"

[dependencies]
time = "0.1.12"

[dependencies.some-crate]
branch = "next"
features = ["foo", "bar"]
git = "http://github.com"
path = "hello_utils"
registry = "crates.io"
version = "1.0"

[dev-dependencies]
tempdir = "0.3"

[build-dependencies]
cc = "1.0.3"

[features]
default = ["fancy-feature"]
fancy-feature = ["foo", "bar"]

[patch.crates-io]
bar = { path = "my/local/bar" }
foo = { git = "https://github.com/example/foo" }

[replace]
"bar:1.0.2" = { path = 'my/local/bar' }

[replace."foo:0.1.0"]
git = 'https://github.com/example/foo'

[profile.dev]
opt-level = 1 # Use slightly better optimizations.
overflow-checks = false # Disable integer overflow checks.

[workspace]
exclude = ["crates/foo", "path/to/other"]
members = [
    "member1",
    "path/to/member2",
    "crates/*"
]
"#;
    let mut toml = CargoToml::default(before.to_string()).unwrap();
    toml.format().unwrap();
    assert_eq!(toml.toml_document.to_string(), after);
}

#[test]
fn format_crossterm_toml() {
    let before = r#"[ package ]
name = "crossterm"
version = "0.24.0"
authors = ["T. Post"]
documentation = "https://docs.rs/crossterm/"
description = "A crossplatform terminal library for manipulating terminals."
repository = "https://github.com/crossterm-rs/crossterm"
license = "MIT"
keywords = ["event", "color", "cli", "input", "terminal"]
edition = "2021"
exclude = ["target", "Cargo.lock"]
readme = "README.md"
categories = ["command-line-interface", "command-line-utilities"]"#;
    let after = r#"[package]
name = "crossterm"
version = "0.24.0"
authors = ["T. Post"]
edition = "2021"
description = "A crossplatform terminal library for manipulating terminals."
documentation = "https://docs.rs/crossterm/"
readme = "README.md"
repository = "https://github.com/crossterm-rs/crossterm"
license = "MIT"
keywords = ["event", "color", "cli", "input", "terminal"]
categories = ["command-line-interface", "command-line-utilities"]
exclude = ["target", "Cargo.lock"]
"#;
    let mut config = TomlFormatConfig::new();
    config.order_package_section = true;
    config.trim_section_item_keys = true;
    config.table_formatting = true;
    config.trim_section_key_names = true;
    let mut toml = CargoToml::from_config(before.to_string(), config).unwrap();
    toml.format().unwrap();
    assert_eq!(toml.toml_document.to_string(), after);
}

#[test]
fn strip_empty_spaces_and_enforce_new_line() {
    let before = r#"


[a ]
description="a" # A description of the package.



 description1="b" # b description of the package.
[ b ]

    description="a" # A description of the package.


           [ c]          

description="a" # A description of the package.



[d ]
description="a" # A description of the package.
"#;
    let config = TomlFormatConfig::new();
    let mut toml = CargoToml::from_config(before.to_string(), config).unwrap();
    toml.format().unwrap();
    assert_eq!(toml.toml_document.to_string(), before);
}
