//! Which formatting rules run, and with what parameters.

use vstd::prelude::*;
use crate::package_order::{texts, TomlSection, TomlSort};

verus! {

/// The switches and parameters of the formatting rules.
#[derive(Debug)]
pub struct TomlFormatConfig {
    /// Order the sections as a manifest lists them.
    pub order_sections: bool,
    /// The sections that come first, in this order, when `order_sections`
    /// is set; the sections that are not named follow in the order of a
    /// manifest, and after them those that a manifest does not know.
    pub custom_section_order: Vec<String>,
    /// Order the entries of `dependencies` by name, ignoring case.
    pub order_dependencies_alphabetically: bool,
    /// The orders to sort the entries of `dependencies` by.
    pub dependency_sorts: Option<Vec<TomlSort>>,
    /// Order the keys of the `package` section as a manifest lists them.
    pub order_package_section: bool,
    /// Order the keys of every table and inline table by name.
    pub order_table_keys_alphabetically: bool,
    /// Order the keys of every section but `package` by name within each
    /// group; a blank line before a key starts a group.
    pub order_section_keys_by_group_alphabetically: bool,
    /// With `order_table_keys_alphabetically`: a key whose name contains one
    /// of these texts is not compared with any other.
    pub exclude_keys_from_ordering: Vec<String>,
    /// With `order_table_keys_alphabetically`: the sections that are left
    /// as they are.
    pub exclude_tables_from_ordering: Vec<String>,
    /// Remove the white space around section names: `[ a ]` to `[a]`.
    pub trim_section_key_names: bool,
    /// Remove the white space around section headers and around the keys
    /// of a section.
    pub trim_section_item_keys: bool,
    /// Write keys without quotes where their names allow it.
    pub trim_quotes_table_keys: bool,
    /// Put a blank line before every section but the first.
    pub add_newline_after_section: bool,
    /// Normalise the spacing of keys, values, arrays and inline tables.
    pub table_formatting: bool,
    /// Put each element of an array on its own line when the array would
    /// make a line longer than this.
    pub wrap_array: Option<usize>,
    /// Turn an inline table into a section of its own when it would make a
    /// line longer than this.
    pub wrap_table: Option<usize>,
}

/// The model of a [`TomlFormatConfig`].
pub struct ConfigModel {
    pub order_sections: bool,
    pub custom_section_order: Seq<Seq<char>>,
    pub order_dependencies_alphabetically: bool,
    pub dependency_sorts: Option<Seq<TomlSort>>,
    pub order_package_section: bool,
    pub order_table_keys_alphabetically: bool,
    pub order_section_keys_by_group_alphabetically: bool,
    pub exclude_keys_from_ordering: Seq<Seq<char>>,
    pub exclude_tables_from_ordering: Seq<Seq<char>>,
    pub trim_section_key_names: bool,
    pub trim_section_item_keys: bool,
    pub trim_quotes_table_keys: bool,
    pub add_newline_after_section: bool,
    pub table_formatting: bool,
    pub wrap_array: Option<usize>,
    pub wrap_table: Option<usize>,
}

impl View for TomlFormatConfig {
    type V = ConfigModel;

    open spec fn view(&self) -> ConfigModel {
        ConfigModel {
            order_sections: self.order_sections,
            custom_section_order: texts(self.custom_section_order@),
            order_dependencies_alphabetically: self.order_dependencies_alphabetically,
            dependency_sorts: match self.dependency_sorts {
                Some(v) => Some(v@),
                None => None,
            },
            order_package_section: self.order_package_section,
            order_table_keys_alphabetically: self.order_table_keys_alphabetically,
            order_section_keys_by_group_alphabetically: self.order_section_keys_by_group_alphabetically,
            exclude_keys_from_ordering: texts(self.exclude_keys_from_ordering@),
            exclude_tables_from_ordering: texts(self.exclude_tables_from_ordering@),
            trim_section_key_names: self.trim_section_key_names,
            trim_section_item_keys: self.trim_section_item_keys,
            trim_quotes_table_keys: self.trim_quotes_table_keys,
            add_newline_after_section: self.add_newline_after_section,
            table_formatting: self.table_formatting,
            wrap_array: self.wrap_array,
            wrap_table: self.wrap_table,
        }
    }
}

/// The configuration under which no rule runs.
pub open spec fn no_formatting() -> ConfigModel {
    ConfigModel {
        order_sections: false,
        custom_section_order: Seq::empty(),
        order_dependencies_alphabetically: false,
        dependency_sorts: None,
        order_package_section: false,
        order_table_keys_alphabetically: false,
        order_section_keys_by_group_alphabetically: false,
        exclude_keys_from_ordering: Seq::empty(),
        exclude_tables_from_ordering: Seq::empty(),
        trim_section_key_names: false,
        trim_section_item_keys: false,
        trim_quotes_table_keys: false,
        add_newline_after_section: false,
        table_formatting: false,
        wrap_array: None,
        wrap_table: None,
    }
}

/// The configuration that [`TomlFormatConfig::default`] gives.
pub open spec fn default_formatting() -> ConfigModel {
    ConfigModel {
        order_sections: true,
        custom_section_order: TomlSection::manifest_names(),
        order_dependencies_alphabetically: true,
        dependency_sorts: None,
        order_package_section: true,
        order_table_keys_alphabetically: true,
        order_section_keys_by_group_alphabetically: false,
        exclude_keys_from_ordering: Seq::empty(),
        exclude_tables_from_ordering: seq!["package"@],
        trim_section_key_names: true,
        trim_section_item_keys: true,
        trim_quotes_table_keys: true,
        add_newline_after_section: true,
        table_formatting: true,
        wrap_array: Some(50usize),
        wrap_table: Some(50usize),
    }
}

/// A copy of a list of strings.
pub fn copy_texts(v: &Vec<String>) -> (r: Vec<String>)
    ensures
        texts(r@) == texts(v@),
{
    let mut out: Vec<String> = Vec::new();
    let mut i: usize = 0;
    while i < v.len()
        invariant
            i <= v.len(),
            out@.len() == i,
            forall|j: int| 0 <= j < i ==> (#[trigger] out@[j])@ == v@[j]@,
        decreases v.len() - i,
    {
        out.push(v[i].clone());
        i += 1;
    }
    proof {
        assert(texts(out@) =~= texts(v@));
    }
    out
}

impl TomlFormatConfig {
    /// A configuration that formats nothing. Use `default()` for the usual
    /// formatting.
    pub fn new() -> (r: TomlFormatConfig)
        ensures
            r@ == no_formatting(),
    {
        let r = TomlFormatConfig {
            order_sections: false,
            custom_section_order: Vec::new(),
            order_dependencies_alphabetically: false,
            dependency_sorts: None,
            order_package_section: false,
            order_table_keys_alphabetically: false,
            order_section_keys_by_group_alphabetically: false,
            exclude_keys_from_ordering: Vec::new(),
            exclude_tables_from_ordering: Vec::new(),
            trim_section_key_names: false,
            trim_section_item_keys: false,
            trim_quotes_table_keys: false,
            add_newline_after_section: false,
            table_formatting: false,
            wrap_array: None,
            wrap_table: None,
        };
        proof {
            assert(texts(r.custom_section_order@) =~= Seq::empty());
            assert(texts(r.exclude_keys_from_ordering@) =~= Seq::empty());
            assert(texts(r.exclude_tables_from_ordering@) =~= Seq::empty());
        }
        r
    }

    /// A copy with the same model.
    pub fn duplicate(&self) -> (r: TomlFormatConfig)
        ensures
            r@ == self@,
    {
        let sorts: Option<Vec<TomlSort>> = match &self.dependency_sorts {
            Some(v) => {
                let mut out: Vec<TomlSort> = Vec::new();
                let mut i: usize = 0;
                while i < v.len()
                    invariant
                        i <= v.len(),
                        out@ == v@.take(i as int),
                    decreases v.len() - i,
                {
                    out.push(v[i]);
                    i += 1;
                }
                proof {
                    assert(v@.take(v.len() as int) =~= v@);
                }
                Some(out)
            },
            None => None,
        };
        TomlFormatConfig {
            order_sections: self.order_sections,
            custom_section_order: copy_texts(&self.custom_section_order),
            order_dependencies_alphabetically: self.order_dependencies_alphabetically,
            dependency_sorts: sorts,
            order_package_section: self.order_package_section,
            order_table_keys_alphabetically: self.order_table_keys_alphabetically,
            order_section_keys_by_group_alphabetically: self.order_section_keys_by_group_alphabetically,
            exclude_keys_from_ordering: copy_texts(&self.exclude_keys_from_ordering),
            exclude_tables_from_ordering: copy_texts(&self.exclude_tables_from_ordering),
            trim_section_key_names: self.trim_section_key_names,
            trim_section_item_keys: self.trim_section_item_keys,
            trim_quotes_table_keys: self.trim_quotes_table_keys,
            add_newline_after_section: self.add_newline_after_section,
            table_formatting: self.table_formatting,
            wrap_array: self.wrap_array,
            wrap_table: self.wrap_table,
        }
    }
}

impl Default for TomlFormatConfig {
    /// The usual formatting: every rule but the ordering by groups, and
    /// lines of at most 50 characters.
    fn default() -> (r: TomlFormatConfig)
        ensures
            r@ == default_formatting(),
    {
        let mut excluded: Vec<String> = Vec::new();
        excluded.push("package".to_string());
        let r = TomlFormatConfig {
            order_sections: true,
            custom_section_order: TomlSection::manifest_spec(),
            order_dependencies_alphabetically: true,
            dependency_sorts: None,
            order_package_section: true,
            order_table_keys_alphabetically: true,
            order_section_keys_by_group_alphabetically: false,
            exclude_keys_from_ordering: Vec::new(),
            exclude_tables_from_ordering: excluded,
            trim_section_key_names: true,
            trim_section_item_keys: true,
            trim_quotes_table_keys: true,
            add_newline_after_section: true,
            table_formatting: true,
            wrap_array: Some(50),
            wrap_table: Some(50),
        };
        proof {
            assert(texts(r.exclude_keys_from_ordering@) =~= Seq::empty());
            assert(texts(r.exclude_tables_from_ordering@) =~= seq!["package"@]);
        }
        r
    }
}

} // verus!
