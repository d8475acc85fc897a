use cargo_toml_fmt::cargo_toml::{
    format_text, CargoToml, FormatError, FormatRule, FormattingStage,
};
use cargo_toml_fmt::document::{
    Decor, DocumentModel, Entry, TomlDocument, TomlItem, TomlKey, TomlTable, TomlValue,
};
use cargo_toml_fmt::formatting::{
    trim_blank_lines, AppendLineAfterSection, InlineTableWrap, KeyQuoteTrimmer, TableFormatting,
    WrapArray,
};
use cargo_toml_fmt::ordering::{
    OrderDependencies, OrderSectionKeysByGroupAlphabetically, OrderSections,
    OrderTableKeysAlphabetically,
};
use cargo_toml_fmt::package_order::{PackageOrder, TomlSection, TomlSort};
use cargo_toml_fmt::reader::{is_shallow, read_document, ReadError};
use cargo_toml_fmt::toml_config::{ConfigModel, TomlFormatConfig};
use cargo_toml_fmt::utils::{item_len, table_len};
use cargo_toml_fmt::{PassError, TomlFormatter};

/// Formats a text, and holds what comes out against the parser: it reads as
/// a manifest, is written by `toml_edit` as it stands, and holds the keys
/// and values of the text that went in. Formatting it once more changes
/// nothing.
fn format_with(before: &str, config: TomlFormatConfig) -> String {
    let mut toml = CargoToml::from_config(before.to_string(), config.duplicate()).unwrap();
    toml.format().unwrap();
    let after = toml.toml_document.to_string();
    assert_eq!(format_text(before, config.duplicate()).unwrap(), after);
    let parsed = after.parse::<toml_edit::Document>().unwrap();
    assert_eq!(parsed.to_string(), after);
    assert_eq!(leaves(&read_document(&after).unwrap()), leaves(&read_document(before).unwrap()));
    let mut again = CargoToml::from_config(after.clone(), config).unwrap();
    again.format().unwrap();
    assert_eq!(again.toml_document.to_string(), after, "formatting twice");
    after
}

fn key(name: &str) -> TomlKey {
    TomlKey { name: name.to_string(), repr: name.to_string(), decor: Decor::new() }
}

/// Every key path of a table with the written form of the scalar under it.
fn leaves_of_table(table: &TomlTable, path: &str, out: &mut Vec<(String, String)>) {
    for entry in table.entries.iter() {
        let here = format!("{}/{}", path, entry.key.name);
        match &entry.item {
            TomlItem::Absent => {}
            TomlItem::Value(value) => leaves_of_value(value, &here, out),
            TomlItem::Table(inner) => leaves_of_table(inner, &here, out),
            TomlItem::ArrayOfTables(tables) => {
                for (i, inner) in tables.iter().enumerate() {
                    leaves_of_table(inner, &format!("{}#{}", here, i), out);
                }
            }
        }
    }
}

fn leaves_of_value(value: &TomlValue, path: &str, out: &mut Vec<(String, String)>) {
    match value {
        TomlValue::Scalar(scalar) => out.push((path.to_string(), scalar.repr.clone())),
        TomlValue::Array(array) => {
            for (i, inner) in array.values.iter().enumerate() {
                leaves_of_value(inner, &format!("{}#{}", path, i), out);
            }
        }
        TomlValue::InlineTable(table) => {
            for entry in table.entries.iter() {
                leaves_of_value(&entry.value, &format!("{}/{}", path, entry.key.name), out);
            }
        }
    }
}

fn leaves(document: &TomlDocument) -> Vec<(String, String)> {
    let mut out = Vec::new();
    leaves_of_table(&document.root, "", &mut out);
    out.sort();
    out
}

const SAMPLE: &str = r#"# a manifest
[ package ]
version = "0.1.0"   # the version
name = "sample"
"edition" = "2021"

[[bin]]
name = "tool"   # first
path = "src/main.rs"

[[bin]]
name = "other"

[dependencies]
Zeta = "1"
alpha = { version = "1.0", features = ["a", "b"], path = "../some/long/path/to/alpha" } # local
beta = "2"
dotted.key = 1

[features]
default = [
    "one", # why
    "two",
]
empty = {  }

[unknown.nested]
x = 1
"#;

#[test]
fn text_is_printed_as_it_was_read() {
    let samples = [
        SAMPLE,
        "",
        "a = 1",
        "a = 1\n",
        "# only a comment\n",
        "a.b = 1\nc = { d.e = 2, f = [ 1, 2 , ] }\n[x]\ny.z = { q.r = 2 }\n",
        "[a]\n[a.b.c]\nk = 'v'\n[[t]]\n[[t]]\n[t.u]\nq = \"\"\"\nlong\"\"\"\n",
        "empty = {  }\nalso = []\nspaced = [ ]\n",
        "  [ a . b ]  # c\n  k  =  1  # d\n",
    ];
    for text in samples {
        let document = read_document(text).unwrap();
        let parsed = text.parse::<toml_edit::Document>().unwrap();
        assert_eq!(document.to_string(), parsed.to_string());
        if text.is_empty() || text.ends_with('\n') {
            assert_eq!(document.to_string(), text);
        }
    }
}

#[test]
fn no_rule_leaves_the_text_unchanged() {
    assert_eq!(format_with(SAMPLE, TomlFormatConfig::new()), SAMPLE);
}

#[test]
fn duplicate_prints_alike() {
    let document = read_document(SAMPLE).unwrap();
    assert_eq!(document.duplicate().to_string(), SAMPLE);
}

#[test]
fn invalid_text_is_a_parse_failure() {
    let result = CargoToml::from_config("[a\nb = ".to_string(), TomlFormatConfig::new());
    assert!(matches!(result, Err(FormatError::ParseFailure(_))));
    let result = CargoToml::default("a = 1\na = 2\n".to_string());
    assert!(matches!(result, Err(FormatError::ParseFailure(_))));
}

fn nested_arrays(depth: usize) -> String {
    let mut text = String::from("a = ");
    for _ in 0..depth {
        text.push('[');
    }
    for _ in 0..depth {
        text.push(']');
    }
    text.push('\n');
    text
}

#[test]
fn deep_nesting_is_a_parse_failure() {
    assert!(is_shallow(&nested_arrays(48)));
    assert!(!is_shallow(&nested_arrays(49)));
    assert!(is_shallow("a = [[1], [2], [3]] # ]]]]"));
    assert!(matches!(read_document(&nested_arrays(49)), Err(ReadError::TooDeep)));
    assert!(matches!(read_document(&nested_arrays(100_000)), Err(ReadError::TooDeep)));
    let text = nested_arrays(48);
    assert_eq!(read_document(&text).unwrap().to_string(), text);
    let result = CargoToml::new(nested_arrays(56), TomlFormatConfig::new());
    match result {
        Err(FormatError::ParseFailure(message)) => {
            assert_eq!(message, "Failed to parse toml. Tables and values are nested too deeply.")
        }
        _ => panic!("expected a parse failure"),
    }
}

fn nested_inline_tables(depth: usize) -> String {
    let mut text = String::from("a = ");
    for _ in 0..depth {
        text.push_str("{ a = ");
    }
    text.push('1');
    for _ in 0..depth {
        text.push_str(" }");
    }
    text.push('\n');
    text
}

#[test]
fn inline_tables_are_read_as_deep_as_brackets_may_be() {
    let text = nested_inline_tables(48);
    assert!(is_shallow(&text));
    assert_eq!(read_document(&text).unwrap().to_string(), text);
    let mut config = TomlFormatConfig::default();
    config.order_dependencies_alphabetically = false;
    config.wrap_table = Some(1);
    format_with(&text, config);
    assert!(!is_shallow(&nested_inline_tables(49)));
    assert!(matches!(read_document(&nested_inline_tables(49)), Err(ReadError::TooDeep)));
}

fn dotted(dots: usize) -> String {
    let mut path = String::from("a");
    for _ in 0..dots {
        path.push_str(".a");
    }
    path
}

#[test]
fn keys_of_many_segments_are_kept_from_the_parser() {
    assert!(is_shallow(&format!("[{}]\n", dotted(64))));
    assert!(!is_shallow(&format!("[{}]\n", dotted(65))));
    assert!(is_shallow(&format!("{} = 1\n", dotted(64))));
    assert!(!is_shallow(&format!("{} = 1\n", dotted(65))));
    assert!(!is_shallow(&format!("x = 1\ny = {{ {} = 1 }}\n", dotted(65))));
    for text in [
        format!("[{}]\n", dotted(1_000_000)),
        format!("{} = 1\n", dotted(1_000_000)),
        format!("[[{}]]\n", dotted(65)),
    ] {
        assert!(matches!(read_document(&text), Err(ReadError::TooDeep)));
    }
    let floats = vec!["1.5"; 200].join(", ");
    let many = ".".repeat(200);
    let texts = [
        format!("a = [{}]\n", floats),
        format!("a = [\n{}\n]\n", vec!["  1.5,"; 200].join("\n")),
        format!("a = \"{}\"\nb = '{}' # {}\n", many, many, many),
        format!("\"{}\".'{}' = 1979-05-27T07:32:00.999999-07:00\n", many, many),
        format!("a.b = 1.5\nc.d = 2.5\n{}", (0..100).map(|i| format!("k{}.f = 0.5\n", i)).collect::<String>()),
        format!("[a.b]\nc.d = {{ e.f = 1.5, g.h = 2.5 }}\n[a.c]\n[[a.d]]\n"),
    ];
    for text in texts {
        assert!(is_shallow(&text), "{}", text);
        assert_eq!(read_document(&text).unwrap().to_string(), text);
    }
    let deep = format!("[{}]\n{} = 1\n", dotted(30), dotted(30));
    assert_eq!(read_document(&deep).unwrap().to_string(), deep);
}

#[test]
fn deep_tables_are_a_parse_failure() {
    let mut header = String::from("[a");
    for _ in 0..70 {
        header.push_str(".a");
    }
    header.push_str("]\n");
    assert!(matches!(read_document(&header), Err(ReadError::TooDeep)));
    let mut header = String::from("[a");
    for _ in 0..20 {
        header.push_str(".a");
    }
    header.push_str("]\n");
    assert_eq!(read_document(&header).unwrap().to_string(), header);
}

#[test]
fn trim_blank_lines_removes_both_ends_only() {
    assert_eq!(trim_blank_lines("\n\n  # a\n\n# b \n \t\n"), "# a\n\n# b");
    assert_eq!(trim_blank_lines("\n\n  # keep\n\n  # this  \n\n"), "# keep\n\n  # this");
    assert_eq!(trim_blank_lines("a\n"), "a");
    assert_eq!(trim_blank_lines("\n  # a  "), "# a");
    assert_eq!(trim_blank_lines("  \n  x \r\n"), "x");
    assert_eq!(trim_blank_lines(" \u{a0}\u{3000}x\u{2003}"), "x");
    assert_eq!(trim_blank_lines(""), "");
    assert_eq!(trim_blank_lines(" \n "), "");
    let once = trim_blank_lines("  a b  ");
    assert_eq!(trim_blank_lines(&once), once);
}

#[test]
fn get_comment_takes_what_follows_the_first_hash() {
    assert_eq!(TableFormatting::get_comment("   # hi there  "), Some(" hi there".to_string()));
    assert_eq!(TableFormatting::get_comment("#"), Some(String::new()));
    assert_eq!(TableFormatting::get_comment(" # a # b \n"), Some(" a # b".to_string()));
    assert_eq!(TableFormatting::get_comment("  "), None);
    assert_eq!(TableFormatting::get_comment(""), None);
}

#[test]
fn fmt_prefix_keeps_comment_lines_only() {
    assert_eq!(
        TableFormatting::fmt_prefix_and_preserve_comments("\n   # one\n\n\t# two  \r\n   \n"),
        "# one\n# two\n"
    );
    assert_eq!(TableFormatting::fmt_prefix_and_preserve_comments("   "), "");
    assert_eq!(TableFormatting::fmt_prefix_and_preserve_comments(""), "");
    assert_eq!(TableFormatting::fmt_prefix_and_preserve_comments("# last"), "# last\n");
}

#[test]
fn manifest_spec_lists_the_names_in_order() {
    let sections = TomlSection::manifest_spec();
    assert_eq!(sections.len(), 17);
    assert_eq!(sections[0], "package");
    assert_eq!(sections[2], "bin");
    assert_eq!(sections[8], "build-dependencies");
    assert_eq!(sections[16], "cargo-features");
    let keys = PackageOrder::manifest_spec();
    assert_eq!(
        keys,
        vec![
            "name", "version", "authors", "edition", "rust-version", "description",
            "documentation", "readme", "homepage", "repository", "license", "license-file",
            "keywords", "categories", "workspace", "build", "links", "exclude", "include",
            "publish", "metadata", "default-run", "autobins", "autoexamples", "autotests",
            "autobenches", "resolver"
        ]
    );
}

#[test]
fn package_order_knows_its_names() {
    assert_eq!(PackageOrder::from_name("license-file"), Some(PackageOrder::LicenseFile));
    assert_eq!(PackageOrder::LicenseFile.order(), 11);
    assert_eq!(PackageOrder::Resolver.order(), 26);
    assert_eq!(PackageOrder::Name.order(), 0);
    assert_eq!(PackageOrder::AutoBenchmarks.name(), "autobenches");
    assert_eq!(PackageOrder::from_name("Name"), None);
    assert_eq!(PackageOrder::from_name(""), None);
    assert_eq!(TomlSection::from_name("dev-dependencies"), Some(TomlSection::DevDependencies));
    assert_eq!(TomlSection::DevDependencies.order(), 7);
    assert_eq!(TomlSection::from_name("bins"), None);
}

#[test]
fn new_config_formats_nothing_and_default_config_everything_usual() {
    let none = TomlFormatConfig::new();
    assert!(!none.order_sections && !none.table_formatting && !none.add_newline_after_section);
    assert_eq!(none.wrap_array, None);
    assert_eq!(none.wrap_table, None);
    assert!(none.custom_section_order.is_empty());
    let usual = TomlFormatConfig::default();
    assert!(usual.order_sections && usual.order_package_section && usual.table_formatting);
    assert!(usual.order_table_keys_alphabetically && usual.order_dependencies_alphabetically);
    assert!(!usual.order_section_keys_by_group_alphabetically);
    assert_eq!(usual.custom_section_order, TomlSection::manifest_spec());
    assert_eq!(usual.exclude_tables_from_ordering, vec!["package".to_string()]);
    assert_eq!(usual.wrap_array, Some(50));
    assert_eq!(usual.wrap_table, Some(50));
    assert_eq!(usual.dependency_sorts, None);
}

#[test]
fn rules_follow_the_configuration() {
    let toml = CargoToml::from_config(String::new(), TomlFormatConfig::new()).unwrap();
    assert!(toml.rules.is_empty());
    assert!(toml.rule_names().is_empty());
    let toml = CargoToml::default(String::new()).unwrap();
    let before = FormattingStage::BeforeFormatting;
    let after = FormattingStage::AfterFormatting;
    assert_eq!(
        toml.rule_names(),
        vec![
            (true, before, Some(FormatRule::OrderSections)),
            (true, before, Some(FormatRule::OrderPackageSection)),
            (true, before, Some(FormatRule::OrderTableKeysAlphabetically)),
            (true, before, Some(FormatRule::OrderDependencies)),
            (true, before, Some(FormatRule::KeyQuoteTrimmer)),
            (true, before, Some(FormatRule::KeyTrimmer)),
            (true, before, Some(FormatRule::SectionKeyNameTrimmer)),
            (true, FormattingStage::WhileFormatting, Some(FormatRule::TableFormatting)),
            (true, after, Some(FormatRule::WrapArray)),
            (true, after, Some(FormatRule::InlineTableWrap)),
            (true, after, Some(FormatRule::AppendLineAfterSection)),
        ]
    );
    let mut config = TomlFormatConfig::new();
    config.dependency_sorts = Some(vec![TomlSort::Length]);
    config.order_section_keys_by_group_alphabetically = true;
    let toml = CargoToml::from_config(String::new(), config).unwrap();
    assert_eq!(
        toml.rule_names(),
        vec![
            (true, before, Some(FormatRule::OrderDependencies)),
            (true, before, Some(FormatRule::OrderSectionKeysByGroupAlphabetically)),
        ]
    );
}

#[test]
fn rules_run_stage_by_stage() {
    let text = "[b]\nk=[\"x\",\"y\",\"z\"]\n";
    let mut toml = CargoToml::new(text.to_string(), {
        let mut config = TomlFormatConfig::new();
        config.wrap_array = Some(10);
        config
    })
    .unwrap();
    // Added first, but of a later stage: wrapping sees the formatted key.
    toml.add_named_rule(FormattingStage::AfterFormatting, FormatRule::WrapArray);
    toml.add_format_rule(FormattingStage::WhileFormatting, Box::new(TableFormatting));
    toml.format().unwrap();
    assert_eq!(toml.toml_document.to_string(), "[b]\nk = [\n    \"x\",\n    \"y\",\n    \"z\"\n]\n");
}

#[test]
fn missing_dependencies_fail_the_format_and_leave_the_document() {
    let text = "[package]\nname = \"a\"\n";
    let mut config = TomlFormatConfig::new();
    config.trim_section_key_names = true;
    config.order_dependencies_alphabetically = true;
    config.add_newline_after_section = true;
    let mut toml = CargoToml::from_config(text.to_string(), config).unwrap();
    match toml.format() {
        Err(FormatError::PassFailure { rule, error }) => {
            assert_eq!(rule, Some(FormatRule::OrderDependencies));
            assert_eq!(error, PassError::MissingSection);
        }
        _ => panic!("expected the ordering of dependencies to fail"),
    }
    assert_eq!(toml.toml_document.to_string(), text);
    assert!(matches!(toml.dependencies(), Err(PassError::MissingSection)));
}

#[test]
fn dependencies_section_is_found() {
    let mut toml = CargoToml::new(SAMPLE.to_string(), TomlFormatConfig::new()).unwrap();
    assert_eq!(toml.dependencies_index(), Some(2));
    match toml.dependencies() {
        Ok(TomlItem::Table(table)) => assert_eq!(table.entries.len(), 4),
        _ => panic!("expected the dependencies table"),
    }
}

#[test]
fn dependencies_section_can_be_changed_in_place() {
    let text = "[package]\nname = \"a\"\n\n[dependencies]\nb = \"1\"\na = \"2\"\n\n[features]\n";
    let mut toml = CargoToml::new(text.to_string(), TomlFormatConfig::new()).unwrap();
    match toml.dependencies() {
        Ok(TomlItem::Table(table)) => {
            table.entries.remove(0);
        }
        _ => panic!("expected the dependencies table"),
    }
    assert_eq!(
        toml.toml_document.to_string(),
        "[package]\nname = \"a\"\n\n[dependencies]\na = \"2\"\n\n[features]\n"
    );
}

#[test]
fn table_without_position_under_one_without_is_an_invariant_violation() {
    let mut inner = TomlTable::new();
    inner.implicit = false;
    let mut outer = TomlTable::new();
    outer.implicit = true;
    outer.entries.push(Entry { key: key("sub"), item: TomlItem::Table(inner) });
    let mut document = TomlDocument::new();
    document.root.entries.push(Entry { key: key("lib"), item: TomlItem::Table(outer) });
    let before = document.to_string();
    let mut config = TomlFormatConfig::new();
    config.order_sections = true;
    let result = OrderSections.visit_document(&mut document, &config);
    assert_eq!(result, Err(PassError::InvariantViolation));
    assert_eq!(document.to_string(), before);

    let mut toml = CargoToml::from_document(document, config.duplicate());
    toml.add_named_rule(FormattingStage::BeforeFormatting, FormatRule::OrderSections);
    assert!(matches!(
        toml.format(),
        Err(FormatError::PassFailure {
            rule: Some(FormatRule::OrderSections),
            error: PassError::InvariantViolation
        })
    ));
}

#[test]
fn sections_follow_the_schema_and_unknown_ones_come_last() {
    let before = "[zeta]\n[lib]\nx = 1\n[alpha]\n[package]\nname = \"n\"\n[lib.inner]\ny = 2\n";
    let mut config = TomlFormatConfig::new();
    config.order_sections = true;
    assert_eq!(
        format_with(before, config),
        "[package]\nname = \"n\"\n[lib]\nx = 1\n[lib.inner]\ny = 2\n[zeta]\n[alpha]\n"
    );
}

#[test]
fn custom_section_order_comes_first() {
    let before = "[package]\n[lib]\n[features]\n[dependencies]\n[mine]\n";
    let mut config = TomlFormatConfig::new();
    config.order_sections = true;
    config.custom_section_order = vec!["features".to_string(), "mine".to_string()];
    assert_eq!(
        format_with(before, config),
        "[features]\n[mine]\n[package]\n[lib]\n[dependencies]\n"
    );
}

#[test]
fn ordering_gives_new_positions_at_every_depth() {
    let before = "[lib.a.b]\nx = 1\n[package]\n[lib]\nl = 1\n[lib.a]\na = 1\n";
    let mut config = TomlFormatConfig::new();
    config.order_sections = true;
    let mut toml = CargoToml::from_config(before.to_string(), config).unwrap();
    toml.format().unwrap();
    assert_eq!(
        toml.toml_document.to_string(),
        "[package]\n[lib]\nl = 1\n[lib.a]\na = 1\n[lib.a.b]\nx = 1\n"
    );
    let package = &toml.toml_document.root.entries[0];
    match &package.item {
        TomlItem::Table(table) => assert_eq!(table.position, Some(1)),
        _ => panic!("expected a table"),
    }
}

#[test]
fn unknown_package_keys_stay_among_their_neighbours() {
    let before = "[package]\nversion = \"1\"\nname = \"n\"\ncustom = 1\nauthors = []\n";
    let mut config = TomlFormatConfig::new();
    config.order_package_section = true;
    assert_eq!(
        format_with(before, config),
        "[package]\nname = \"n\"\nversion = \"1\"\ncustom = 1\nauthors = []\n"
    );
    // a key that the order does not know is compared with none, and none moves past it
    let before = "[package]\nversion = \"1\"\ncustom = 1\nname = \"n\"\n";
    let mut config = TomlFormatConfig::new();
    config.order_package_section = true;
    assert_eq!(format_with(before, config), before);
}

#[test]
fn dependencies_are_sorted_without_regard_to_case() {
    let before = "[dependencies]\nb = \"1\"\nC = \"1\"\nA = \"1\"\na2 = \"1\"\n";
    let mut config = TomlFormatConfig::new();
    config.order_dependencies_alphabetically = true;
    assert_eq!(
        format_with(before, config),
        "[dependencies]\nA = \"1\"\na2 = \"1\"\nb = \"1\"\nC = \"1\"\n"
    );
}

#[test]
fn dependencies_sorted_by_name_and_then_by_length() {
    let before = "[dependencies]\nb = \"1\"\nA = \"333\"\na = \"1\"\n";
    let mut config = TomlFormatConfig::new();
    config.dependency_sorts = Some(vec![TomlSort::Length, TomlSort::Alphabetical]);
    assert_eq!(
        format_with(before, config),
        "[dependencies]\na = \"1\"\nA = \"333\"\nb = \"1\"\n"
    );
}

#[test]
fn item_len_counts_keys_and_values() {
    let text = "[dependencies]\na = \"a\"\ng = { test = 5.0 }\nf = { test = true}\n\
                e = { version = \"aaa\", features = [\"a\"] }\nd.x.y = \"é\"\nn = 12_000\n";
    let document = read_document(text).unwrap();
    let table = match &document.root.entries[0].item {
        TomlItem::Table(table) => table,
        _ => panic!("expected a table"),
    };
    let lengths: Vec<usize> = table.entries.iter().map(|e| item_len(&e.item)).collect();
    assert_eq!(lengths, vec![1, 7, 8, 19, 3, 6]);
    assert_eq!(table_len(table), 1 + 1 + 1 + 7 + 1 + 8 + 1 + 19 + 1 + 3 + 1 + 6);
    assert_eq!(item_len(&document.root.entries[0].item), table_len(table));
    assert_eq!(item_len(&TomlItem::Absent), 0);
}

#[test]
fn array_wraps_only_beyond_the_width() {
    let before = "[b]\nab=[\"x\",\"y\"]\n";
    let mut config = TomlFormatConfig::new();
    config.wrap_array = Some(13);
    assert_eq!(format_with(before, config), "[b]\nab=[\"x\", \"y\"]\n");
    let mut config = TomlFormatConfig::new();
    config.wrap_array = Some(12);
    assert_eq!(format_with(before, config), "[b]\nab=[\n    \"x\",\n    \"y\"\n]\n");
}

#[test]
fn arrays_of_package_are_not_wrapped() {
    let before = "[package]\nauthors=[\"x\",\"y\"]\n[b]\nauthors=[\"x\",\"y\"]\n";
    let mut config = TomlFormatConfig::new();
    config.wrap_array = Some(1);
    assert_eq!(
        format_with(before, config),
        "[package]\nauthors=[\"x\",\"y\"]\n[b]\nauthors=[\n    \"x\",\n    \"y\"\n]\n"
    );
}

#[test]
fn format_array_is_exact_at_the_threshold() {
    let document = read_document("k = [1,  2]\n").unwrap();
    let entry = &document.root.entries[0];
    let array = match entry.item.duplicate() {
        TomlItem::Value(TomlValue::Array(array)) => array,
        _ => panic!("expected an array"),
    };
    // the key takes 1, `=` takes 1, and ` [1, 2]` takes 7
    let fits = WrapArray::format_array(&entry.key, array, 9);
    assert_eq!(fits.to_string(), " [1, 2]");
    let array = match entry.item.duplicate() {
        TomlItem::Value(TomlValue::Array(array)) => array,
        _ => panic!("expected an array"),
    };
    let wrapped = WrapArray::format_array(&entry.key, array, 8);
    assert_eq!(wrapped.to_string(), " [\n    1,\n    2\n]");
}

#[test]
fn long_inline_table_becomes_a_section_and_keeps_its_comment() {
    let before = "[dependencies]\nb = { version = \"0.4.1\", path = \"some_path\" } # local\nc = 1\n";
    let mut config = TomlFormatConfig::new();
    config.wrap_table = Some(20);
    assert_eq!(
        format_with(before, config),
        "[dependencies]\nc = 1\n\n[dependencies.b] # local\nversion = \"0.4.1\"\npath = \"some_path\"\n"
    );
}

#[test]
fn inline_tables_wrap_at_every_depth() {
    let before = "[target.x]\ndep = { path = \"0123456789\", inner = { a = \"0123456789\" } }\n";
    let mut config = TomlFormatConfig::new();
    config.wrap_table = Some(20);
    assert_eq!(
        format_with(before, config),
        "[target.x]\n\n[target.x.dep]\npath = \"0123456789\"\n\n[target.x.dep.inner]\na = \"0123456789\"\n"
    );
    let table = InlineTableWrap::fmt_table(TomlTable::new(), 1);
    assert!(table.entries.is_empty());
}

#[test]
fn quotes_are_trimmed_where_the_name_allows_it() {
    let before = "[a]\n  \"b\"  = { \"c\" = 1, \"d e\" = 2, 'f' = 3 }\n\"x:y\" = 1\n[[t]]\n\"k\" = 1\n";
    let mut config = TomlFormatConfig::new();
    config.trim_quotes_table_keys = true;
    assert_eq!(
        format_with(before, config),
        "[a]\n  b  = { c = 1, \"d e\" = 2, 'f' = 3 }\n\"x:y\" = 1\n[[t]]\nk = 1\n"
    );
    let mut document = read_document("[\"s\"]\n\"k\" = 1\n").unwrap();
    assert_eq!(KeyQuoteTrimmer.visit_document(&mut document, &TomlFormatConfig::new()), Ok(()));
    assert_eq!(document.to_string(), "[\"s\"]\nk = 1\n");
}

#[test]
fn pinned_keys_are_compared_with_none() {
    let before = "[a]\nc = 1\nark-b = 2\na = 3\n[b]\nz = 1\nb = 2\n";
    let mut config = TomlFormatConfig::new();
    config.order_table_keys_alphabetically = true;
    config.exclude_keys_from_ordering = vec!["ark".to_string()];
    config.exclude_tables_from_ordering = vec!["b".to_string()];
    assert_eq!(format_with(before, config), before);
    let before = "[a]\nc = 1\na = 3\nark-b = 2\n";
    let mut config = TomlFormatConfig::new();
    config.order_table_keys_alphabetically = true;
    config.exclude_keys_from_ordering = vec!["ark".to_string()];
    assert_eq!(format_with(before, config), "[a]\na = 3\nc = 1\nark-b = 2\n");
}

#[test]
fn groups_hand_their_header_to_the_first_key() {
    let before = "[a]\n# head\nc = 1\nb = 2\n\n# second\nz = 1\ny = 2\n[package]\nb = 1\na = 2\n";
    let mut config = TomlFormatConfig::new();
    config.order_section_keys_by_group_alphabetically = true;
    assert_eq!(
        format_with(before, config),
        "[a]\n# head\nb = 2\nc = 1\n\n# second\ny = 2\nz = 1\n[package]\nb = 1\na = 2\n"
    );
}

#[test]
fn blank_line_is_put_before_every_section_but_the_first() {
    let before = "[[bin]]\nname = \"a\"\n[[bin]]\nname = \"b\"\n[lib]\n";
    let mut config = TomlFormatConfig::new();
    config.add_newline_after_section = true;
    assert_eq!(
        format_with(before, config),
        "[[bin]]\nname = \"a\"\n\n[[bin]]\nname = \"b\"\n\n[lib]\n"
    );
}

#[test]
fn table_formatting_keeps_comments() {
    let before = "  # top\n[ a ]   # head\n  # about k\n  k=1   # one # two  \n  t={x=[1,2],y=2}#tight\n";
    let mut config = TomlFormatConfig::new();
    config.table_formatting = true;
    assert_eq!(
        format_with(before, config),
        "# top\n[a] # head\n# about k\nk = 1 # one # two\nt = { x = [1, 2], y = 2 } #tight\n"
    );
}

#[test]
fn formatting_twice_is_formatting_once() {
    let once = {
        let mut toml = CargoToml::default(SAMPLE.to_string()).unwrap();
        toml.format().unwrap();
        toml.toml_document.to_string()
    };
    let twice = {
        let mut toml = CargoToml::default(once.clone()).unwrap();
        toml.format().unwrap();
        toml.toml_document.to_string()
    };
    assert_eq!(twice, once);
}

#[test]
fn formatting_keeps_every_trailing_comment() {
    let mut toml = CargoToml::default(SAMPLE.to_string()).unwrap();
    toml.format().unwrap();
    let text = toml.toml_document.to_string();
    for comment in ["# the version", "# first", "# local"] {
        assert!(text.contains(comment), "{} is lost in:\n{}", comment, text);
    }
}

#[test]
fn formatting_keeps_every_key_and_value() {
    let before = read_document(SAMPLE).unwrap();
    let mut toml = CargoToml::default(SAMPLE.to_string()).unwrap();
    toml.format().unwrap();
    assert_eq!(leaves(&toml.toml_document), leaves(&before));
    assert_eq!(leaves(&before).len(), 16);

    let mut config = TomlFormatConfig::new();
    config.order_section_keys_by_group_alphabetically = true;
    config.dependency_sorts = Some(vec![TomlSort::Length]);
    config.wrap_table = Some(1);
    config.wrap_array = Some(1);
    let mut toml = CargoToml::from_config(SAMPLE.to_string(), config).unwrap();
    toml.format().unwrap();
    assert_eq!(leaves(&toml.toml_document), leaves(&before));
    let printed = toml.toml_document.to_string();
    assert_eq!(leaves(&read_document(&printed).unwrap()), leaves(&before));
}

#[test]
fn sort_dependencies_leaves_other_items() {
    let mut config = TomlFormatConfig::new();
    config.order_dependencies_alphabetically = true;
    let document = read_document("dependencies = [\"b\", \"a\"]\n").unwrap();
    let item = document.root.entries[0].item.duplicate();
    let sorted = OrderDependencies.sort_dependencies(item, &config);
    match sorted {
        TomlItem::Value(TomlValue::Array(array)) => assert_eq!(array.to_string(), " [\"b\", \"a\"]"),
        _ => panic!("expected the array"),
    }
}

#[test]
fn sort_dependencies_goes_by_name_where_no_order_is_named() {
    let document = read_document("[dependencies]\nB=\"1\"\na=\"2\"\nC=\"3\"\n").unwrap();
    let item = document.root.entries[0].item.duplicate();
    let sorted = OrderDependencies.sort_dependencies(item, &TomlFormatConfig::new());
    let mut by_length = TomlFormatConfig::new();
    by_length.dependency_sorts = Some(vec![TomlSort::Length]);
    let longer = read_document("[dependencies]\nbb=\"1\"\na=\"22\"\nc=\"3\"\n").unwrap();
    let measured =
        OrderDependencies.sort_dependencies(longer.root.entries[0].item.duplicate(), &by_length);
    match (sorted, measured) {
        (TomlItem::Table(sorted), TomlItem::Table(measured)) => {
            let names: Vec<&str> = sorted.entries.iter().map(|e| e.key.name.as_str()).collect();
            assert_eq!(names, ["a", "B", "C"]);
            let values: Vec<String> = sorted
                .entries
                .iter()
                .map(|e| match &e.item {
                    TomlItem::Value(TomlValue::Scalar(s)) => s.value.clone(),
                    _ => panic!("expected a string"),
                })
                .collect();
            assert_eq!(values, ["2", "1", "3"]);
            let names: Vec<&str> = measured.entries.iter().map(|e| e.key.name.as_str()).collect();
            assert_eq!(names, ["c", "bb", "a"]);
        }
        _ => panic!("expected the tables"),
    }
}

#[test]
fn white_space_is_what_std_takes_for_it() {
    for code in 0..=0x10FFFFu32 {
        if let Some(c) = char::from_u32(code) {
            let text = c.to_string();
            assert_eq!(trim_blank_lines(&text).is_empty(), c.is_whitespace(), "U+{:04X}", code);
        }
    }
}

#[test]
fn text_functions_agree_with_std() {
    let samples = [
        "",
        "\n",
        "a",
        "  a  \n\n b\r\n\r\n# c \r\n\n",
        "\r\n\r",
        "x\r",
        "# one\n\n   # two\t\n\u{2003}three\u{a0}\n\n\n",
        "\n\n\n",
        "a # b # c   \n",
    ];
    for text in samples {
        assert_eq!(trim_blank_lines(text), text.trim());
        let lines: Vec<&str> =
            text.lines().map(|line| line.trim()).filter(|line| !line.is_empty()).collect();
        let expected = if lines.is_empty() { String::new() } else { lines.join("\n") + "\n" };
        assert_eq!(TableFormatting::fmt_prefix_and_preserve_comments(text), expected);
        let comment = text.find('#').map(|at| text[at + 1..].trim_end().to_string());
        assert_eq!(TableFormatting::get_comment(text), comment);
    }
}

#[test]
fn keys_are_ordered_as_strings_are() {
    let before = "[a]\n\"é\" = 1\nz = 2\nZ = 3\n\"\" = 4\nab = 5\na = 6\n\"a b\" = 7\n";
    let mut names: Vec<&str> = vec!["é", "z", "Z", "", "ab", "a", "a b"];
    names.sort();
    let mut config = TomlFormatConfig::new();
    config.order_table_keys_alphabetically = true;
    let mut toml = CargoToml::from_config(before.to_string(), config).unwrap();
    toml.format().unwrap();
    let table = match &toml.toml_document.root.entries[0].item {
        TomlItem::Table(table) => table,
        _ => panic!("expected a table"),
    };
    let ordered: Vec<&str> = table.entries.iter().map(|e| e.key.name.as_str()).collect();
    assert_eq!(ordered, names);
}

#[test]
fn order_functions_reach_every_depth() {
    let document = read_document("t = { b = [{ d = 1, c = 2 }], a = { z = 1, y = 2 } }\n").unwrap();
    let config = TomlFormatConfig::new();
    let item = OrderTableKeysAlphabetically::order_item(document.root.entries[0].item.duplicate(), &config);
    let value = match item {
        TomlItem::Value(value) => value,
        _ => panic!("expected a value"),
    };
    let expected = " { a = { y = 2 , z = 1} , b = [{ c = 2 , d = 1}]}";
    match &value {
        TomlValue::InlineTable(table) => assert_eq!(table.to_string(), expected),
        _ => panic!("expected an inline table"),
    }
    let again = OrderTableKeysAlphabetically::order_value(value);
    match &again {
        TomlValue::InlineTable(table) => assert_eq!(table.to_string(), expected),
        _ => panic!("expected an inline table"),
    }
    let table = OrderTableKeysAlphabetically::order_table(document.root.duplicate(), &config);
    assert_eq!(table.entries.len(), 1);
}

#[test]
fn rules_do_nothing_unless_they_are_asked_for() {
    let config = TomlFormatConfig::new();
    let mut document = read_document(SAMPLE).unwrap();
    assert_eq!(OrderSections.visit_document(&mut document, &config), Ok(()));
    assert_eq!(OrderDependencies.visit_document(&mut document, &config), Ok(()));
    assert_eq!(
        OrderSectionKeysByGroupAlphabetically.visit_document(&mut document, &config),
        Ok(())
    );
    assert_eq!(WrapArray.visit_document(&mut document, &config), Ok(()));
    assert_eq!(InlineTableWrap::new().visit_document(&mut document, &config), Ok(()));
    assert_eq!(document.to_string(), SAMPLE);
    assert_eq!(FormatRule::OrderPackageSection.apply(&mut document, &config), Ok(()));
    assert_eq!(document.to_string(), SAMPLE);
}

#[test]
fn dependencies_come_out_in_the_order_a_b_d() {
    let mut config = TomlFormatConfig::new();
    config.order_dependencies_alphabetically = true;
    assert_eq!(
        format_with("[dependencies]\na=\"0.1\"\nd=\"0.4\"\nb=\"0.2\"", config),
        "[dependencies]\na=\"0.1\"\nb=\"0.2\"\nd=\"0.4\"\n"
    );
}

#[test]
fn section_names_lose_the_spaces_around_them() {
    let mut config = TomlFormatConfig::new();
    config.trim_section_key_names = true;
    assert_eq!(format_with("[ a]\n[b ]\na=\"a\"", config), "[a]\n[b]\na=\"a\"\n");
}

#[test]
fn quoted_key_keeps_its_decor() {
    let mut config = TomlFormatConfig::new();
    config.trim_quotes_table_keys = true;
    assert_eq!(format_with("[t]\n  \"a\"\t=\"a\" # c\n", config), "[t]\n  a\t=\"a\" # c\n");
}

#[test]
fn long_array_gets_one_element_per_line() {
    let mut config = TomlFormatConfig::new();
    config.wrap_array = Some(15);
    assert_eq!(
        format_with("[b]\nh=[\"a\",\"b\",\"c\",\"d\",\"e\",\"f\",\"g\"]\n", config),
        "[b]\nh=[\n    \"a\",\n    \"b\",\n    \"c\",\n    \"d\",\n    \"e\",\n    \"f\",\n    \"g\"\n]\n"
    );
}

#[test]
fn blank_line_is_put_before_a_section_once() {
    let mut config = TomlFormatConfig::new();
    config.add_newline_after_section = true;
    let once = format_with("[a]\n[b]\n", config.duplicate());
    assert_eq!(once, "[a]\n\n[b]\n");
    assert_eq!(format_with(&once, config.duplicate()), once);
    let spaced = "[package]\n\n[b]\nx=1\n";
    assert_eq!(format_with(spaced, config.duplicate()), spaced);
    assert_eq!(format_with("[package]\n# about b\n[b]\nx=1\n", config), "[package]\n\n# about b\n[b]\nx=1\n");
}

#[test]
fn trimming_keeps_comment_lines() {
    let mut config = TomlFormatConfig::new();
    config.trim_section_item_keys = true;
    let text = "[a]\n# note\nb=1\n";
    assert_eq!(format_with(text, config.duplicate()), text);
    assert_eq!(
        format_with("\n  # about a\n\n[a]  # head\n\n   # note\n   # more\n\n  b=1\n", config.duplicate()),
        "# about a\n[a]# head\n# note\n   # more\nb=1\n"
    );
    let mut both = TomlFormatConfig::new();
    both.trim_section_item_keys = true;
    both.trim_section_key_names = true;
    both.add_newline_after_section = true;
    let once = format_with("[ a ]\n# one\nx = 1\n\n# about b\n[ b ]\n\n# two\ny = 2\n", both.duplicate());
    assert_eq!(once, "[a]\n# one\nx= 1\n\n# about b\n[b]\n# two\ny= 2\n");
    assert_eq!(format_with(&once, both), once);
}

#[test]
fn arrays_with_comments_keep_their_lines() {
    let text = "[f]\ndefault = [\n    \"one\", # why\n    \"two\",\n    # last\n]\nplain = [ \"a\",\"b\" ]\n";
    let mut config = TomlFormatConfig::new();
    config.wrap_array = Some(1);
    assert_eq!(
        format_with(text, config),
        "[f]\ndefault = [\n    \"one\", # why\n    \"two\",\n    # last\n]\nplain = [\n    \"a\",\n    \"b\"\n]\n"
    );
    let mut config = TomlFormatConfig::new();
    config.table_formatting = true;
    assert_eq!(
        format_with(text, config),
        "[f]\ndefault = [\n    \"one\", # why\n    \"two\",\n    # last\n]\nplain = [\"a\", \"b\"]\n"
    );
    let with_dependencies = format!("{}[dependencies]\nz = \"1\"\n", text);
    let mut toml = CargoToml::default(with_dependencies).unwrap();
    toml.format().unwrap();
    let once = toml.toml_document.to_string();
    assert!(once.contains("# why\n") && once.contains("# last\n"));
    assert_eq!(format_with(&once, TomlFormatConfig::default()), once);
}

#[test]
fn brackets_in_strings_and_comments_do_not_count() {
    let many = "[{".repeat(100);
    let texts = [
        format!("k = \"{}\"\n", many),
        format!("k = '{}'\n", many),
        format!("k = \"\"\"\n{}\n\"{} \"\" \\\"\"\" {}\"\"\"\n", many, many, many),
        format!("k = '''\n{}\n'{} '' {}'''\n", many, many, many),
        format!("# {}\nk = 1 # {}\n", many, many),
        format!("\"{}\" = 1\n['t{}']\nx = \"\\\\\" # {}\n", many, many, many),
    ];
    for text in texts {
        assert!(is_shallow(&text), "{}", text);
        let document = read_document(&text).unwrap();
        assert_eq!(document.to_string(), text);
    }
}

#[test]
fn brackets_after_a_string_count() {
    let tokens = [
        "\"\"", "\"a\"", "\"\\\"\"", "\"\\\\\"", "\"#\"", "\"'\"", "\"a\\\\\"", "''", "'a'", "'#'",
        "'\\'", "'\"'", "\"\"\"x\"\"\"", "\"\"\"\"x\"\"\"", "\"\"\"x\"\"\"\"", "\"\"\"x\"\"\"\"\"",
        "\"\"\" \"\" \"\"\"", "\"\"\"\\\"\"\"\"", "\"\"\"\"\"\"", "\"\"\"a\\\\\"\"\"", "'''x'''",
        "''''x'''", "'''x''''", "'''x'''''", "''' '' '''", "''''''", "'''\\'''", "1", "true",
    ];
    let deep = "[".repeat(60);
    for token in tokens {
        let valid = format!("k = [{}]\n", token);
        assert!(valid.parse::<toml_edit::Document>().is_ok(), "{}", valid);
        assert!(is_shallow(&valid), "{}", valid);
        for text in [
            format!("k = [{}, {}", token, deep),
            format!("k = [{}\n, {}", token, deep),
            format!("j = {} # note\nk = {}", token, deep),
            format!("j = {}\nk = [{}, {}", token, token, deep),
        ] {
            assert!(!is_shallow(&text), "{}", text);
            assert!(matches!(read_document(&text), Err(ReadError::TooDeep)), "{}", text);
        }
    }
}

#[test]
fn what_is_read_is_what_is_loaded() {
    let toml = CargoToml::new(SAMPLE.to_string(), TomlFormatConfig::new()).unwrap();
    assert_eq!(toml.toml_document.to_string(), read_document(SAMPLE).unwrap().to_string());
    match CargoToml::new("a = ".to_string(), TomlFormatConfig::new()) {
        Err(FormatError::ParseFailure(message)) => {
            assert!(message.starts_with("Failed to parse toml. TOML parse error"), "{}", message)
        }
        _ => panic!("expected a parse failure"),
    }
    assert!(matches!(read_document("a = "), Err(ReadError::Syntax(_))));
    let values = read_document("s = \"a\\tb\"\ni = 0x10\nf = 1e3\nb = true\nd = 1979-05-27\n").unwrap();
    let held: Vec<(String, String)> = values
        .root
        .entries
        .iter()
        .map(|entry| match &entry.item {
            TomlItem::Value(TomlValue::Scalar(scalar)) => {
                (scalar.value.clone(), scalar.repr.clone())
            }
            _ => panic!("expected a scalar"),
        })
        .collect();
    assert_eq!(
        held,
        vec![
            ("a\tb".to_string(), "\"a\\tb\"".to_string()),
            (String::new(), "0x10".to_string()),
            (String::new(), "1e3".to_string()),
            (String::new(), "true".to_string()),
            (String::new(), "1979-05-27".to_string()),
        ]
    );
}

/// A rule of the caller's own: it empties the text after the last entry.
struct DropTrailing;

impl TomlFormatter for DropTrailing {
    // The model of the rule is for proofs alone and never runs.
    fn formatted(&self, _: DocumentModel, _: ConfigModel) -> Result<DocumentModel, PassError> {
        unreachable!()
    }

    fn visit_document(
        &mut self,
        toml_document: &mut TomlDocument,
        _config: &TomlFormatConfig,
    ) -> Result<(), PassError> {
        toml_document.trailing = String::new();
        Ok(())
    }
}

#[test]
fn a_rule_of_the_callers_own_is_applied() {
    let mut toml = CargoToml::new("[a]\nx = 1\n# end\n".to_string(), TomlFormatConfig::new()).unwrap();
    assert_eq!(toml.apply_rule(&mut DropTrailing), Ok(()));
    assert_eq!(toml.toml_document.to_string(), "[a]\nx = 1\n");
    assert_eq!(toml.apply_rule(&mut OrderDependencies), Ok(()));
    let mut config = TomlFormatConfig::new();
    config.order_dependencies_alphabetically = true;
    let mut toml = CargoToml::new("[a]\nx = 1\n".to_string(), config).unwrap();
    assert_eq!(toml.apply_rule(&mut OrderDependencies), Err(PassError::MissingSection));
    assert_eq!(toml.toml_document.to_string(), "[a]\nx = 1\n");
}

/// A rule of the caller's own that counts its calls and fails from the
/// second on.
struct Once {
    calls: usize,
}

impl TomlFormatter for Once {
    // The model of the rule is for proofs alone and never runs.
    fn formatted(&self, _: DocumentModel, _: ConfigModel) -> Result<DocumentModel, PassError> {
        unreachable!()
    }

    fn visit_document(
        &mut self,
        toml_document: &mut TomlDocument,
        _config: &TomlFormatConfig,
    ) -> Result<(), PassError> {
        self.calls += 1;
        if self.calls > 1 {
            return Err(PassError::MissingSection);
        }
        toml_document.trailing.push_str("# seen\n");
        Ok(())
    }
}

#[test]
fn a_rule_of_the_callers_own_runs_in_its_stage() {
    let text = "[dependencies]\nx=[1,2]\n[package]\ny = 1\n# end\n";
    let mut config = TomlFormatConfig::new();
    config.order_sections = true;
    config.table_formatting = true;
    config.add_newline_after_section = true;
    let mut toml = CargoToml::from_config(text.to_string(), config).unwrap();
    toml.add_format_rule(FormattingStage::AfterFormatting, Box::new(AppendLineAfterSection));
    toml.add_format_rule(FormattingStage::BeforeFormatting, Box::new(DropTrailing));
    toml.add_format_rule(FormattingStage::WhileFormatting, Box::new(Once { calls: 0 }));
    let names = toml.rule_names();
    assert_eq!(names.len(), 6);
    assert_eq!(names[2], (true, FormattingStage::AfterFormatting, Some(FormatRule::AppendLineAfterSection)));
    assert_eq!(names[3], (true, FormattingStage::AfterFormatting, None));
    assert_eq!(names[4], (true, FormattingStage::BeforeFormatting, None));
    toml.format().unwrap();
    assert_eq!(
        toml.toml_document.to_string(),
        "[package]\ny = 1\n\n[dependencies]\nx = [1, 2]\n# seen\n"
    );
    assert_eq!(toml.rule_names(), names);
    let after_once = toml.toml_document.to_string();
    match toml.format() {
        Err(FormatError::PassFailure { rule, error }) => {
            assert_eq!(rule, None);
            assert_eq!(error, PassError::MissingSection);
        }
        _ => panic!("expected the caller's rule to fail"),
    }
    assert_eq!(toml.toml_document.to_string(), after_once);
}

#[test]
fn a_rule_of_the_callers_own_runs_between_the_stages() {
    let text = "[dependencies]\nx=[1,2]\n[package]\ny = 1\n# end\n";
    let mut config = TomlFormatConfig::new();
    config.order_sections = true;
    config.table_formatting = true;
    config.add_newline_after_section = true;
    let mut staged = CargoToml::from_config(text.to_string(), config.duplicate()).unwrap();
    staged.format_stage(FormattingStage::BeforeFormatting).unwrap();
    assert_eq!(staged.toml_document.to_string(), "[package]\ny = 1\n[dependencies]\nx=[1,2]\n# end\n");
    staged.format_stage(FormattingStage::WhileFormatting).unwrap();
    assert_eq!(staged.toml_document.to_string(), "[package]\ny = 1\n[dependencies]\nx = [1, 2]\n# end\n");
    assert_eq!(staged.apply_rule(&mut DropTrailing), Ok(()));
    staged.format_stage(FormattingStage::AfterFormatting).unwrap();
    assert_eq!(staged.toml_document.to_string(), "[package]\ny = 1\n\n[dependencies]\nx = [1, 2]\n");
    let mut whole = CargoToml::from_config(text.to_string(), config).unwrap();
    whole.format().unwrap();
    assert_eq!(whole.toml_document.to_string(), "[package]\ny = 1\n\n[dependencies]\nx = [1, 2]\n# end\n");
}

#[test]
fn each_rule_applied_twice_changes_nothing_more() {
    let texts = [
        SAMPLE,
        "[a]\n# head\nc = 1\nb = 2\n\n# second\nz = 1\ny = 2\n\n\n# third\nm = 1\nk = 2\n",
        "[dependencies]\nb =   { version = \"0.4.1\", inner =  { path = \"some_path\" }  } # local\nc = 1\n",
    ];
    let rules = [
        FormatRule::OrderSections,
        FormatRule::OrderPackageSection,
        FormatRule::OrderTableKeysAlphabetically,
        FormatRule::OrderDependencies,
        FormatRule::OrderSectionKeysByGroupAlphabetically,
        FormatRule::KeyQuoteTrimmer,
        FormatRule::KeyTrimmer,
        FormatRule::SectionKeyNameTrimmer,
        FormatRule::TableFormatting,
        FormatRule::WrapArray,
        FormatRule::InlineTableWrap,
        FormatRule::AppendLineAfterSection,
    ];
    for width in [1usize, 20, 40, 1000] {
        let mut config = TomlFormatConfig::default();
        config.order_table_keys_alphabetically = true;
        config.order_section_keys_by_group_alphabetically = true;
        config.wrap_array = Some(width);
        config.wrap_table = Some(width);
        for text in texts {
            for rule in &rules {
                let mut document = read_document(text).unwrap();
                if rule.apply(&mut document, &config).is_err() {
                    continue;
                }
                let once = document.to_string();
                rule.apply(&mut document, &config).unwrap();
                assert_eq!(document.to_string(), once, "{rule:?} at {width}");
            }
        }
    }
}

#[test]
fn every_configuration_settles_after_one_run() {
    let texts = [
        SAMPLE,
        "",
        "# only a comment\n",
        "[dependencies]\n",
        "top = 1\n\n[dependencies]\n\n\n# group one\n\nb = 1 # b\na = 2\n\n# group two\n\"z\" = { x = 1 }\ny = [ 1, 2 ]\n",
        "  [ b . c ]  # c\n k . l = 1\n[a]\n'q' = '''x'''\n[[ bin ]]\nname = \"n\"\n[dependencies]\nserde = { version = \"1\", features = [\"derive\", \"rc\"], optional = true }\n",
        "[dependencies]\n# leading\n\n# about b\nb = \"2\" # tail\n\n\n\n# about a\na = [\n  \"x\", # x\n  \"y\",\n] # after\n\n[features]\ndefault = []\n# closing\n",
        "[package]\nname = \"p\"\nkeywords = [\"one\", \"two\", \"three\", \"four\", \"five\"]\nversion = \"1\"\n\n[dev-dependencies]\nb = { path = \"../b\", inner = { deep = { deeper = \"0123456789012345678901234567890123456789\" } } }\n\n[dependencies]\nA = \"1\"\naa = \"2\"\nB = \"3\"\n\n[workspace]\nmembers = [\"a\", \"b\"]\n\n[unknown]\nk = 1\n",
        "[target.'cfg(unix)'.dependencies]\nlibc = \"0.2\"\n\n[dependencies]\nx = \"1\"\n\n[target.\"cfg(windows)\".dependencies]\nwinapi = { version = \"0.3\", features = [\"winuser\", \"libloaderapi\", \"errhandlingapi\"] }\n",
    ];
    let mut configs: Vec<TomlFormatConfig> = Vec::new();
    configs.push(TomlFormatConfig::new());
    configs.push(TomlFormatConfig::default());
    for width in [1usize, 10, 30, 80] {
        for sorts in [
            None,
            Some(vec![TomlSort::Alphabetical]),
            Some(vec![TomlSort::Length]),
            Some(vec![TomlSort::Alphabetical, TomlSort::Length]),
        ] {
            let mut config = TomlFormatConfig::default();
            config.order_table_keys_alphabetically = true;
            config.order_section_keys_by_group_alphabetically = width % 20 == 10;
            config.wrap_array = Some(width);
            config.wrap_table = Some(width);
            config.dependency_sorts = sorts;
            config.exclude_keys_from_ordering = vec!["version".to_string()];
            configs.push(config);
        }
    }
    let mut settled: usize = 0;
    for text in texts {
        for config in &configs {
            if CargoToml::from_config(text.to_string(), config.duplicate()).unwrap().format().is_err() {
                continue;
            }
            format_with(text, config.duplicate());
            settled += 1;
        }
    }
    assert_eq!(settled, 9 + 17 * 7);
}

#[test]
fn format_text_reports_what_went_wrong() {
    let mut config = TomlFormatConfig::new();
    config.order_dependencies_alphabetically = true;
    assert_eq!(
        format_text("[dependencies]\nb = 1\na = 2\n", config.duplicate()).unwrap(),
        "[dependencies]\na = 2\nb = 1\n"
    );
    match format_text("[package]\n", config.duplicate()) {
        Err(FormatError::PassFailure { rule, error }) => {
            assert_eq!(rule, Some(FormatRule::OrderDependencies));
            assert_eq!(error, PassError::MissingSection);
        }
        _ => panic!("expected the ordering of dependencies to fail"),
    }
    match format_text("[package\n", config) {
        Err(FormatError::ParseFailure(message)) => {
            assert!(message.starts_with("Failed to parse toml. "));
            assert!(message.len() > "Failed to parse toml. ".len());
        }
        _ => panic!("expected a parse failure"),
    }
}

#[test]
fn blank_line_goes_by_the_place_of_the_header() {
    let mut config = TomlFormatConfig::new();
    config.add_newline_after_section = true;
    assert_eq!(
        format_with("[target.x]\na=1\n[package]\nb=1\n[target]\nc=1\n", config.duplicate()),
        "[target.x]\na=1\n[package]\nb=1\n\n[target]\nc=1\n"
    );
    assert_eq!(
        format_with("[a]\n[[b]]\n[c]\n[[b]]\n", config.duplicate()),
        "[a]\n\n[[b]]\n\n[c]\n\n[[b]]\n"
    );
    assert_eq!(
        format_with("[[b]]\nx=1\n[a]\n[[b]]\n", config.duplicate()),
        "[[b]]\nx=1\n\n[a]\n\n[[b]]\n"
    );
    let mut document = read_document("[a]\nx = 1\n[b]\n").unwrap();
    for entry in document.root.entries.iter_mut() {
        if let TomlItem::Table(table) = &mut entry.item {
            table.position = None;
        }
    }
    FormatRule::AppendLineAfterSection.apply(&mut document, &config).unwrap();
    assert_eq!(document.to_string(), "[a]\nx = 1\n\n[b]\n");
}

#[test]
fn an_indented_comment_starts_no_group() {
    let mut config = TomlFormatConfig::new();
    config.order_section_keys_by_group_alphabetically = true;
    assert_eq!(
        format_with(
            "[a]\nb = 1\n  # about c\nc = 2\na = 3\n\n  # second\nz = 1\ny = 2\n",
            config.duplicate()
        ),
        "[a]\na = 3\nb = 1\n  # about c\nc = 2\n\n  # second\ny = 2\nz = 1\n"
    );
    assert_eq!(
        format_with("[a]\nc = 1\n \t \nb = 2\na = 3\n", config),
        "[a]\nc = 1\n \t \na = 3\nb = 2\n"
    );
}

#[test]
fn the_deepest_tables_that_are_read_are_formatted() {
    let mut deepest = 0;
    for dots in 0..=64 {
        if read_document(&format!("[{}]\nk = {{ v = [1] }}\n", dotted(dots))).is_ok() {
            deepest = dots;
        }
    }
    assert!((56..=64).contains(&deepest), "{}", deepest);
    let text = format!("[{}]\nk = {{ v = [1, 2] }} # end\n", dotted(deepest));
    let mut config = TomlFormatConfig::default();
    config.order_dependencies_alphabetically = false;
    config.order_table_keys_alphabetically = true;
    config.order_section_keys_by_group_alphabetically = true;
    config.wrap_table = Some(1);
    config.wrap_array = Some(1);
    let after = format_with(&text, config);
    assert!(after.contains("# end"));
}

#[test]
fn groups_are_read_from_the_blank_lines_that_are_there() {
    // Once the spacing is settled no blank line parts the keys, so a second
    // run takes them for one group.
    let mut config = TomlFormatConfig::new();
    config.order_section_keys_by_group_alphabetically = true;
    config.table_formatting = true;
    let once = format_text("[a]\nz = 1\ny = 2\n\nb = 3\na = 4\n", config.duplicate()).unwrap();
    assert_eq!(once, "[a]\ny = 2\nz = 1\na = 4\nb = 3\n");
    let twice = format_text(&once, config.duplicate()).unwrap();
    assert_eq!(twice, "[a]\na = 4\nb = 3\ny = 2\nz = 1\n");
    assert_eq!(format_text(&twice, config).unwrap(), twice);
}
