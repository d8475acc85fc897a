//! A manifest in memory with the rules that format it.

use vstd::prelude::*;
use vstd::string::StringExecFns;
use crate::document::{
    entries_model, lemma_item_view, lemma_table_view, DocumentModel, Entry, EntryModel,
    TomlDocument, TomlItem,
};
use crate::formatting::{
    AppendLineAfterSection, InlineTableWrap, KeyQuoteTrimmer, KeyTrimmer, SectionKeyNameTrimmer,
    TableFormatting, WrapArray,
};
use crate::ordering::{
    is_dependencies, sorts_by_length, sorts_by_name, OrderDependencies, OrderPackageSection,
    OrderSectionKeysByGroupAlphabetically, OrderSections, OrderTableKeysAlphabetically,
};
use crate::package_order::is_text;
use crate::reader::{is_readable, parsed, read_document, within_limits, ReadError};
use crate::render::render_document;
use crate::text::to_chars;
use crate::toml_config::{default_formatting, ConfigModel, TomlFormatConfig};
use crate::{PassError, TomlFormatter};

verus! {

/// When a rule runs. Some rules have to run after others.
#[derive(Clone, Copy, Debug, PartialEq, Eq, Structural)]
pub enum FormattingStage {
    /// Before the spacing is settled: for rules that do not depend on it.
    BeforeFormatting,
    /// While the spacing is settled.
    WhileFormatting,
    /// After the spacing is settled: for rules that depend on the length
    /// of lines.
    AfterFormatting,
}

/// The rules that a manifest can be formatted with.
#[derive(Clone, Copy, Debug, PartialEq, Eq, Structural)]
pub enum FormatRule {
    OrderSections,
    OrderPackageSection,
    OrderTableKeysAlphabetically,
    OrderDependencies,
    OrderSectionKeysByGroupAlphabetically,
    KeyQuoteTrimmer,
    KeyTrimmer,
    SectionKeyNameTrimmer,
    TableFormatting,
    WrapArray,
    InlineTableWrap,
    AppendLineAfterSection,
}

impl FormatRule {
    /// What the rule makes of a document, or why it cannot be applied.
    pub open spec fn formatted(self, document: DocumentModel, config: ConfigModel) -> Result<
        DocumentModel,
        PassError,
    > {
        match self {
            FormatRule::OrderSections => OrderSections.formatted(document, config),
            FormatRule::OrderPackageSection => OrderPackageSection.formatted(document, config),
            FormatRule::OrderTableKeysAlphabetically => OrderTableKeysAlphabetically.formatted(
                document,
                config,
            ),
            FormatRule::OrderDependencies => OrderDependencies.formatted(document, config),
            FormatRule::OrderSectionKeysByGroupAlphabetically => {
                OrderSectionKeysByGroupAlphabetically.formatted(document, config)
            },
            FormatRule::KeyQuoteTrimmer => KeyQuoteTrimmer.formatted(document, config),
            FormatRule::KeyTrimmer => KeyTrimmer.formatted(document, config),
            FormatRule::SectionKeyNameTrimmer => SectionKeyNameTrimmer.formatted(document, config),
            FormatRule::TableFormatting => TableFormatting.formatted(document, config),
            FormatRule::WrapArray => WrapArray.formatted(document, config),
            FormatRule::InlineTableWrap => InlineTableWrap.formatted(document, config),
            FormatRule::AppendLineAfterSection => AppendLineAfterSection.formatted(
                document,
                config,
            ),
        }
    }

    /// Applies the rule. A document to which it cannot be applied is left
    /// as it is.
    pub fn apply(&self, toml_document: &mut TomlDocument, config: &TomlFormatConfig) -> (r: Result<
        (),
        PassError,
    >)
        ensures
            match self.formatted(old(toml_document)@, config@) {
                Ok(m) => r is Ok && final(toml_document)@ == m,
                Err(e) => r == Err::<(), PassError>(e) && final(toml_document)@ == old(
                    toml_document,
                )@,
            },
    {
        match self {
            FormatRule::OrderSections => OrderSections.visit_document(toml_document, config),
            FormatRule::OrderPackageSection => OrderPackageSection.visit_document(
                toml_document,
                config,
            ),
            FormatRule::OrderTableKeysAlphabetically => OrderTableKeysAlphabetically.visit_document(
                toml_document,
                config,
            ),
            FormatRule::OrderDependencies => OrderDependencies.visit_document(toml_document, config),
            FormatRule::OrderSectionKeysByGroupAlphabetically => {
                OrderSectionKeysByGroupAlphabetically.visit_document(toml_document, config)
            },
            FormatRule::KeyQuoteTrimmer => KeyQuoteTrimmer.visit_document(toml_document, config),
            FormatRule::KeyTrimmer => KeyTrimmer.visit_document(toml_document, config),
            FormatRule::SectionKeyNameTrimmer => SectionKeyNameTrimmer.visit_document(
                toml_document,
                config,
            ),
            FormatRule::TableFormatting => TableFormatting.visit_document(toml_document, config),
            FormatRule::WrapArray => WrapArray.visit_document(toml_document, config),
            FormatRule::InlineTableWrap => InlineTableWrap.visit_document(toml_document, config),
            FormatRule::AppendLineAfterSection => AppendLineAfterSection.visit_document(
                toml_document,
                config,
            ),
        }
    }
}

/// Why a manifest could not be loaded or formatted.
#[derive(Debug)]
pub enum FormatError {
    /// The text is no manifest; the message says why.
    ParseFailure(String),
    /// A rule could not be applied: one of this library, by its name, or
    /// one of the caller's own, which has none.
    PassFailure { rule: Option<FormatRule>, error: PassError },
}

/// A rule as a manifest holds it: one of this library, by its name, or one
/// of the caller's own.
pub enum HeldRule {
    Named(FormatRule),
    Own(Box<dyn TomlFormatter>),
}

impl HeldRule {
    /// What the rule makes of a document, or why it cannot be applied.
    pub open spec fn formatted(self, document: DocumentModel, config: ConfigModel) -> Result<
        DocumentModel,
        PassError,
    > {
        match self {
            HeldRule::Named(rule) => rule.formatted(document, config),
            HeldRule::Own(rule) => rule.formatted(document, config),
        }
    }

    /// The name of the rule, if it is one of this library.
    pub open spec fn name(self) -> Option<FormatRule> {
        match self {
            HeldRule::Named(rule) => Some(rule),
            HeldRule::Own(_) => None,
        }
    }

    /// The name of the rule, if it is one of this library.
    pub fn named(&self) -> (r: Option<FormatRule>)
        ensures
            r == self.name(),
    {
        match self {
            HeldRule::Named(rule) => Some(*rule),
            HeldRule::Own(_) => None,
        }
    }

    /// Applies the rule. A document to which it cannot be applied is left
    /// as it is. A rule of this library stays as it is; one of the
    /// caller's own may change with its work.
    pub fn apply(&mut self, toml_document: &mut TomlDocument, config: &TomlFormatConfig) -> (r:
        Result<(), PassError>)
        ensures
            match old(self).formatted(old(toml_document)@, config@) {
                Ok(m) => r is Ok && final(toml_document)@ == m,
                Err(e) => r == Err::<(), PassError>(e) && final(toml_document)@ == old(
                    toml_document,
                )@,
            },
            final(self).name() == old(self).name(),
            *old(self) is Named ==> *final(self) == *old(self),
    {
        match self {
            HeldRule::Named(rule) => rule.apply(toml_document, config),
            HeldRule::Own(rule) => rule.visit_document(toml_document, config),
        }
    }
}

/// A rule of this library with the switch that asks for it and its stage.
pub type NamedRule = (bool, FormattingStage, FormatRule);

/// A rule as a manifest holds it: whether it is enabled, its stage, and
/// the rule.
pub type StagedRule = (bool, FormattingStage, HeldRule);

/// Rules of this library as a manifest holds them.
pub open spec fn held(rules: Seq<NamedRule>) -> Seq<StagedRule> {
    rules.map_values(|rule: NamedRule| (rule.0, rule.1, HeldRule::Named(rule.2)))
}

/// Whether every rule is one of this library.
pub open spec fn all_named(rules: Seq<StagedRule>) -> bool {
    forall|i: int| 0 <= i < rules.len() ==> (#[trigger] rules[i]).2 is Named
}

/// Whether rules are what they were before a stage was run: as many, with
/// the same switches, stages and names, and each as it was, but for the
/// caller's own rules that were run.
pub open spec fn rules_kept(
    before: Seq<StagedRule>,
    after: Seq<StagedRule>,
    stage: FormattingStage,
) -> bool {
    &&& after.len() == before.len()
    &&& forall|i: int|
        0 <= i < before.len() ==> {
            &&& (#[trigger] after[i]).0 == before[i].0
            &&& after[i].1 == before[i].1
            &&& after[i].2.name() == before[i].2.name()
            &&& (before[i].2 is Named || !before[i].0 || before[i].1 != stage) ==> after[i]
                == before[i]
        }
}

/// Whether rules are what they were before the manifest was formatted.
pub open spec fn rules_alike(before: Seq<StagedRule>, after: Seq<StagedRule>) -> bool {
    &&& after.len() == before.len()
    &&& forall|i: int|
        0 <= i < before.len() ==> {
            &&& (#[trigger] after[i]).0 == before[i].0
            &&& after[i].1 == before[i].1
            &&& after[i].2.name() == before[i].2.name()
            &&& (before[i].2 is Named || !before[i].0) ==> after[i] == before[i]
        }
}

/// The document after the enabled rules of one stage, in the order in
/// which they were added; or the first rule that failed, with its error.
pub open spec fn after_stage(
    rules: Seq<StagedRule>,
    stage: FormattingStage,
    document: DocumentModel,
    config: ConfigModel,
) -> Result<DocumentModel, (Option<FormatRule>, PassError)>
    decreases rules.len(),
{
    if rules.len() == 0 {
        Ok(document)
    } else {
        match after_stage(rules.drop_last(), stage, document, config) {
            Ok(d) => {
                let rule = rules.last();
                if rule.0 && rule.1 == stage {
                    match rule.2.formatted(d, config) {
                        Ok(formatted) => Ok(formatted),
                        Err(e) => Err((rule.2.name(), e)),
                    }
                } else {
                    Ok(d)
                }
            },
            Err(e) => Err(e),
        }
    }
}

/// The document after all stages, one after the other.
pub open spec fn after_all_stages(
    rules: Seq<StagedRule>,
    document: DocumentModel,
    config: ConfigModel,
) -> Result<DocumentModel, (Option<FormatRule>, PassError)> {
    match after_stage(rules, FormattingStage::BeforeFormatting, document, config) {
        Ok(d1) => match after_stage(rules, FormattingStage::WhileFormatting, d1, config) {
            Ok(d2) => after_stage(rules, FormattingStage::AfterFormatting, d2, config),
            Err(e) => Err(e),
        },
        Err(e) => Err(e),
    }
}

/// The rules that there are, each with the switch of the configuration
/// that asks for it and the stage in which it runs, in the order in which
/// they run within their stages.
pub open spec fn all_rules(config: ConfigModel) -> Seq<NamedRule> {
    seq![
        (config.order_sections, FormattingStage::BeforeFormatting, FormatRule::OrderSections),
        (
            config.order_package_section,
            FormattingStage::BeforeFormatting,
            FormatRule::OrderPackageSection,
        ),
        (
            config.order_table_keys_alphabetically,
            FormattingStage::BeforeFormatting,
            FormatRule::OrderTableKeysAlphabetically,
        ),
        (
            sorts_by_name(config) || sorts_by_length(config),
            FormattingStage::BeforeFormatting,
            FormatRule::OrderDependencies,
        ),
        (
            config.order_section_keys_by_group_alphabetically,
            FormattingStage::BeforeFormatting,
            FormatRule::OrderSectionKeysByGroupAlphabetically,
        ),
        (
            config.trim_quotes_table_keys,
            FormattingStage::BeforeFormatting,
            FormatRule::KeyQuoteTrimmer,
        ),
        (config.trim_section_item_keys, FormattingStage::BeforeFormatting, FormatRule::KeyTrimmer),
        (
            config.trim_section_key_names,
            FormattingStage::BeforeFormatting,
            FormatRule::SectionKeyNameTrimmer,
        ),
        (config.table_formatting, FormattingStage::WhileFormatting, FormatRule::TableFormatting),
        (config.wrap_array is Some, FormattingStage::AfterFormatting, FormatRule::WrapArray),
        (config.wrap_table is Some, FormattingStage::AfterFormatting, FormatRule::InlineTableWrap),
        (
            config.add_newline_after_section,
            FormattingStage::AfterFormatting,
            FormatRule::AppendLineAfterSection,
        ),
    ]
}

/// The rules among `rules` whose switch is on.
pub open spec fn switched_on(rules: Seq<NamedRule>) -> Seq<NamedRule>
    decreases rules.len(),
{
    if rules.len() == 0 {
        Seq::empty()
    } else if rules.last().0 {
        switched_on(rules.drop_last()).push(rules.last())
    } else {
        switched_on(rules.drop_last())
    }
}

/// The rules that a configuration asks for.
pub open spec fn rules_for(config: ConfigModel) -> Seq<StagedRule> {
    held(switched_on(all_rules(config)))
}

/// The words that begin the message of every text that could not be
/// loaded.
pub open spec fn parse_failure_words() -> Seq<char> {
    "Failed to parse toml. "@
}

/// Whether a message is the one for a text that could not be loaded: for
/// a text that is no manifest the words above and then the parser's own
/// message, else the words for one that is nested too deeply.
pub open spec fn is_parse_failure_of(text: Seq<char>, message: Seq<char>) -> bool {
    if within_limits(text) && parsed(text) is None {
        message.len() >= parse_failure_words().len() && message.take(
            parse_failure_words().len() as int,
        ) == parse_failure_words()
    } else {
        message == "Failed to parse toml. Tables and values are nested too deeply."@
    }
}

/// A manifest in memory: the way in to formatting one.
pub struct CargoToml {
    pub toml_document: TomlDocument,
    pub rules: Vec<StagedRule>,
    pub config: TomlFormatConfig,
}

impl CargoToml {
    /// The rules of the manifest, in the order in which they were added.
    pub open spec fn rules(&self) -> Seq<StagedRule> {
        self.rules@
    }

    /// The configuration of the manifest.
    pub open spec fn config(&self) -> ConfigModel {
        self.config@
    }

    /// A manifest with a document and a configuration, and no rules.
    pub fn from_document(toml_document: TomlDocument, config: TomlFormatConfig) -> (r: Self)
        ensures
            r.toml_document@ == toml_document@,
            r.rules() == Seq::<StagedRule>::empty(),
            r.config() == config@,
    {
        CargoToml { toml_document, rules: Vec::new(), config }
    }

    /// Loads a manifest from its text, without any rules. The text is
    /// loaded if and only if it can be read; the document is then the one
    /// that the parser makes of it.
    pub fn new(toml_contents: String, config: TomlFormatConfig) -> (r: Result<Self, FormatError>)
        ensures
            r is Ok <==> is_readable(toml_contents@),
            match r {
                Ok(toml) => parsed(toml_contents@) == Some(toml.toml_document@) && toml.rules()
                    == Seq::<StagedRule>::empty() && toml.config() == config@,
                Err(e) => e matches FormatError::ParseFailure(message) && is_parse_failure_of(
                    toml_contents@,
                    message@,
                ),
            },
    {
        match read_document(toml_contents.as_str()) {
            Ok(document) => Ok(Self::from_document(document, config)),
            Err(ReadError::Syntax(message)) => {
                let text = "Failed to parse toml. ".to_string().concat(message.as_str());
                proof {
                    assert(text@.take(parse_failure_words().len() as int)
                        =~= parse_failure_words());
                }
                Err(FormatError::ParseFailure(text))
            },
            Err(ReadError::TooDeep) => Err(
                FormatError::ParseFailure(
                    "Failed to parse toml. Tables and values are nested too deeply.".to_string(),
                ),
            ),
        }
    }

    /// Loads a manifest from its text, with the rules of the usual
    /// formatting.
    pub fn default(toml_contents: String) -> (r: Result<Self, FormatError>)
        ensures
            r is Ok <==> is_readable(toml_contents@),
            match r {
                Ok(toml) => parsed(toml_contents@) == Some(toml.toml_document@) && toml.rules()
                    == rules_for(default_formatting()) && toml.config() == default_formatting(),
                Err(e) => e matches FormatError::ParseFailure(message) && is_parse_failure_of(
                    toml_contents@,
                    message@,
                ),
            },
    {
        let config = TomlFormatConfig::default();
        Self::from_config(toml_contents, config)
    }

    /// Loads a manifest from its text, with the rules that the
    /// configuration asks for.
    pub fn from_config(toml_contents: String, config: TomlFormatConfig) -> (r: Result<
        Self,
        FormatError,
    >)
        ensures
            r is Ok <==> is_readable(toml_contents@),
            match r {
                Ok(toml) => parsed(toml_contents@) == Some(toml.toml_document@) && toml.rules()
                    == rules_for(config@) && toml.config() == config@,
                Err(e) => e matches FormatError::ParseFailure(message) && is_parse_failure_of(
                    toml_contents@,
                    message@,
                ),
            },
    {
        match Self::new(toml_contents, config) {
            Ok(toml) => Ok(Self::with_rules(toml)),
            Err(e) => Err(e),
        }
    }

    /// Adds the rules that the configuration of a manifest asks for, after
    /// the rules that the manifest has.
    pub fn with_rules(toml: Self) -> (r: Self)
        ensures
            r.toml_document@ == toml.toml_document@,
            r.rules() == toml.rules() + rules_for(toml.config()),
            r.config() == toml.config(),
    {
        let ghost before = toml.rules@;
        let mut toml = toml;
        let ghost c = toml.config@;
        let ghost document = toml.toml_document;
        let all = Self::all_rules_of(&toml.config);
        let mut i: usize = 0;
        proof {
            assert(toml.rules@ =~= before + held(switched_on(all@.take(0))));
        }
        while i < all.len()
            invariant
                i <= all.len(),
                all@ == all_rules(c),
                toml.config@ == c,
                toml.toml_document == document,
                toml.rules@ == before + held(switched_on(all@.take(i as int))),
            decreases all.len() - i,
        {
            proof {
                assert(all@.take(i + 1).drop_last() =~= all@.take(i as int));
                assert(all@.take(i + 1).last() == all@[i as int]);
            }
            if all[i].0 {
                toml.add_named_rule(all[i].1, all[i].2);
                proof {
                    assert(toml.rules@ =~= before + held(switched_on(all@.take(i + 1))));
                }
            }
            i += 1;
        }
        proof {
            assert(all@.take(all.len() as int) =~= all@);
        }
        toml
    }

    #[verifier::rlimit(50)]
    fn all_rules_of(config: &TomlFormatConfig) -> (r: Vec<NamedRule>)
        ensures
            r@ == all_rules(config@),
    {
        let mut all: Vec<NamedRule> = Vec::new();
        all.push(
            (config.order_sections, FormattingStage::BeforeFormatting, FormatRule::OrderSections),
        );
        all.push(
            (
                config.order_package_section,
                FormattingStage::BeforeFormatting,
                FormatRule::OrderPackageSection,
            ),
        );
        all.push(
            (
                config.order_table_keys_alphabetically,
                FormattingStage::BeforeFormatting,
                FormatRule::OrderTableKeysAlphabetically,
            ),
        );
        all.push(
            (
                Self::orders_dependencies(config),
                FormattingStage::BeforeFormatting,
                FormatRule::OrderDependencies,
            ),
        );
        all.push(
            (
                config.order_section_keys_by_group_alphabetically,
                FormattingStage::BeforeFormatting,
                FormatRule::OrderSectionKeysByGroupAlphabetically,
            ),
        );
        all.push(
            (
                config.trim_quotes_table_keys,
                FormattingStage::BeforeFormatting,
                FormatRule::KeyQuoteTrimmer,
            ),
        );
        all.push(
            (config.trim_section_item_keys, FormattingStage::BeforeFormatting, FormatRule::KeyTrimmer),
        );
        all.push(
            (
                config.trim_section_key_names,
                FormattingStage::BeforeFormatting,
                FormatRule::SectionKeyNameTrimmer,
            ),
        );
        all.push(
            (config.table_formatting, FormattingStage::WhileFormatting, FormatRule::TableFormatting),
        );
        all.push(
            (config.wrap_array.is_some(), FormattingStage::AfterFormatting, FormatRule::WrapArray),
        );
        all.push(
            (
                config.wrap_table.is_some(),
                FormattingStage::AfterFormatting,
                FormatRule::InlineTableWrap,
            ),
        );
        all.push(
            (
                config.add_newline_after_section,
                FormattingStage::AfterFormatting,
                FormatRule::AppendLineAfterSection,
            ),
        );
        proof {
            let target = all_rules(config@);
            assert(target.len() == 12);
            assert(all@.len() == 12);
            assert(all@[0] == target[0] && all@[1] == target[1] && all@[2] == target[2]);
            assert(all@[3] == target[3] && all@[4] == target[4] && all@[5] == target[5]);
            assert(all@[6] == target[6] && all@[7] == target[7] && all@[8] == target[8]);
            assert(all@[9] == target[9] && all@[10] == target[10] && all@[11] == target[11]);
            assert(all@ =~= target);
        }
        all
    }

    fn orders_dependencies(config: &TomlFormatConfig) -> (r: bool)
        ensures
            r == (sorts_by_name(config@) || sorts_by_length(config@)),
    {
        if config.order_dependencies_alphabetically {
            return true;
        }
        match &config.dependency_sorts {
            Some(sorts) => {
                let mut i: usize = 0;
                while i < sorts.len()
                    invariant
                        i <= sorts.len(),
                        config.dependency_sorts == Some(*sorts),
                        forall|j: int|
                            0 <= j < i ==> sorts@[j] != crate::package_order::TomlSort::Alphabetical
                                && sorts@[j] != crate::package_order::TomlSort::Length,
                    decreases sorts.len() - i,
                {
                    match sorts[i] {
                        crate::package_order::TomlSort::Alphabetical => {
                            assert(sorts@.contains(crate::package_order::TomlSort::Alphabetical));
                            return true;
                        },
                        crate::package_order::TomlSort::Length => {
                            assert(sorts@.contains(crate::package_order::TomlSort::Length));
                            return true;
                        },
                    }
                }
                false
            },
            None => false,
        }
    }

    /// Adds a rule of the caller's own, enabled, to run in the given stage
    /// after the rules that the stage already has.
    pub fn add_format_rule(&mut self, stage: FormattingStage, rule: Box<dyn TomlFormatter>)
        ensures
            final(self).rules() == old(self).rules().push((true, stage, HeldRule::Own(rule))),
            final(self).config() == old(self).config(),
            final(self).toml_document == old(self).toml_document,
    {
        self.rules.push((true, stage, HeldRule::Own(rule)));
    }

    /// Adds a rule of this library, enabled, to run in the given stage
    /// after the rules that the stage already has.
    pub fn add_named_rule(&mut self, stage: FormattingStage, rule: FormatRule)
        ensures
            final(self).rules() == old(self).rules().push((true, stage, HeldRule::Named(rule))),
            final(self).config() == old(self).config(),
            final(self).toml_document == old(self).toml_document,
    {
        self.rules.push((true, stage, HeldRule::Named(rule)));
    }

    /// The rules of the manifest, each with its switch, its stage and its
    /// name; a rule of the caller's own has no name.
    pub fn rule_names(&self) -> (r: Vec<(bool, FormattingStage, Option<FormatRule>)>)
        ensures
            r@.len() == self.rules().len(),
            forall|i: int|
                0 <= i < r@.len() ==> #[trigger] r@[i] == (
                    self.rules()[i].0,
                    self.rules()[i].1,
                    self.rules()[i].2.name(),
                ),
    {
        let mut out: Vec<(bool, FormattingStage, Option<FormatRule>)> = Vec::new();
        let mut i: usize = 0;
        while i < self.rules.len()
            invariant
                i <= self.rules.len(),
                out@.len() == i,
                forall|j: int|
                    0 <= j < i ==> #[trigger] out@[j] == (
                        self.rules@[j].0,
                        self.rules@[j].1,
                        self.rules@[j].2.name(),
                    ),
            decreases self.rules.len() - i,
        {
            out.push((self.rules[i].0, self.rules[i].1, self.rules[i].2.named()));
            i += 1;
        }
        out
    }

    #[verifier::loop_isolation(false)]
    fn run_stage(&mut self, document: &mut TomlDocument, stage: FormattingStage) -> (r: Result<
        (),
        (Option<FormatRule>, PassError),
    >)
        ensures
            final(self).config == old(self).config,
            final(self).toml_document == old(self).toml_document,
            rules_kept(old(self).rules(), final(self).rules(), stage),
            match after_stage(old(self).rules(), stage, old(document)@, old(self).config()) {
                Ok(m) => r is Ok && final(document)@ == m,
                Err(e) => r == Err::<(), (Option<FormatRule>, PassError)>(e),
            },
    {
        let ghost rules = self.rules@;
        let ghost start = document@;
        let mut i: usize = 0;
        while i < self.rules.len()
            invariant
                i <= self.rules.len(),
                self.rules@.len() == rules.len(),
                self.config == old(self).config,
                self.toml_document == old(self).toml_document,
                forall|j: int| i <= j < rules.len() ==> #[trigger] self.rules@[j] == rules[j],
                forall|j: int|
                    0 <= j < i ==> {
                        &&& (#[trigger] self.rules@[j]).0 == rules[j].0
                        &&& self.rules@[j].1 == rules[j].1
                        &&& self.rules@[j].2.name() == rules[j].2.name()
                        &&& (rules[j].2 is Named || !rules[j].0 || rules[j].1 != stage)
                            ==> self.rules@[j] == rules[j]
                    },
                after_stage(rules.take(i as int), stage, start, self.config@) == Ok::<
                    DocumentModel,
                    (Option<FormatRule>, PassError),
                >(document@),
            decreases self.rules.len() - i,
        {
            proof {
                assert(rules.take(i + 1).drop_last() =~= rules.take(i as int));
                assert(rules.take(i + 1).last() == rules[i as int]);
                assert(self.rules@[i as int] == rules[i as int]);
            }
            let enabled = self.rules[i].0;
            let at = self.rules[i].1;
            if enabled && at == stage {
                let ghost before = document@;
                let ghost held_before = self.rules@;
                let name = self.rules[i].2.named();
                match self.rules[i].2.apply(document, &self.config) {
                    Ok(()) => {},
                    Err(e) => {
                        proof {
                            assert(rules[i as int].2.formatted(before, self.config@) is Err);
                            lemma_stage_fails(rules, stage, start, self.config@, i as int);
                            assert forall|j: int| 0 <= j < rules.len() implies {
                                &&& (#[trigger] self.rules@[j]).0 == rules[j].0
                                &&& self.rules@[j].1 == rules[j].1
                                &&& self.rules@[j].2.name() == rules[j].2.name()
                                &&& (rules[j].2 is Named || !rules[j].0 || rules[j].1 != stage)
                                    ==> self.rules@[j] == rules[j]
                            } by {
                                if j != i {
                                    assert(self.rules@[j] == held_before[j]);
                                }
                            }
                        }
                        return Err((name, e));
                    },
                }
                proof {
                    assert forall|j: int| i < j < rules.len() implies #[trigger] self.rules@[j]
                        == rules[j] by {
                        assert(self.rules@[j] == held_before[j]);
                    }
                    assert forall|j: int| 0 <= j < i + 1 implies {
                        &&& (#[trigger] self.rules@[j]).0 == rules[j].0
                        &&& self.rules@[j].1 == rules[j].1
                        &&& self.rules@[j].2.name() == rules[j].2.name()
                        &&& (rules[j].2 is Named || !rules[j].0 || rules[j].1 != stage)
                            ==> self.rules@[j] == rules[j]
                    } by {
                        if j != i {
                            assert(self.rules@[j] == held_before[j]);
                        }
                    }
                }
            }
            i += 1;
        }
        proof {
            assert(rules.take(rules.len() as int) =~= rules);
        }
        Ok(())
    }

    /// Formats the document: applies the enabled rules stage by stage, and
    /// within a stage in the order in which they were added. If a rule
    /// fails, the document stays as it was. The rules of this library stay
    /// as they are; a rule of the caller's own is run once at most.
    pub fn format(&mut self) -> (r: Result<(), FormatError>)
        ensures
            rules_alike(old(self).rules(), final(self).rules()),
            all_named(old(self).rules()) ==> final(self).rules() == old(self).rules(),
            final(self).config() == old(self).config(),
            match after_all_stages(
                old(self).rules(),
                old(self).toml_document@,
                old(self).config(),
            ) {
                Ok(m) => r is Ok && final(self).toml_document@ == m,
                Err(e) => r matches Err(FormatError::PassFailure { rule, error }) && rule == e.0
                    && error == e.1 && final(self).toml_document@ == old(self).toml_document@,
            },
    {
        let ghost rules = self.rules@;
        let ghost config = self.config@;
        let mut toml_document = self.toml_document.duplicate();
        let first = self.run_stage(&mut toml_document, FormattingStage::BeforeFormatting);
        let ghost rules1 = self.rules@;
        proof {
            lemma_rules_stay_alike(rules, rules, rules1, FormattingStage::BeforeFormatting);
            if all_named(rules) {
                lemma_named_rules_kept(rules, rules1);
            }
        }
        match first {
            Ok(()) => {},
            Err(e) => {
                return Err(FormatError::PassFailure { rule: e.0, error: e.1 });
            },
        }
        proof {
            assert forall|i: int| 0 <= i < rules1.len() implies (#[trigger] rules1[i]).0
                == rules[i].0 && rules1[i].1 == rules[i].1 && (!rules[i].0 || rules[i].1
                != FormattingStage::WhileFormatting || rules1[i] == rules[i]) by {}
            lemma_stage_alike(
                rules1,
                rules,
                FormattingStage::WhileFormatting,
                toml_document@,
                config,
            );
        }
        let second = self.run_stage(&mut toml_document, FormattingStage::WhileFormatting);
        let ghost rules2 = self.rules@;
        proof {
            lemma_rules_stay_alike(rules, rules1, rules2, FormattingStage::WhileFormatting);
            if all_named(rules) {
                lemma_named_rules_kept(rules, rules2);
            }
        }
        match second {
            Ok(()) => {},
            Err(e) => {
                return Err(FormatError::PassFailure { rule: e.0, error: e.1 });
            },
        }
        proof {
            assert forall|i: int| 0 <= i < rules2.len() implies (#[trigger] rules2[i]).0
                == rules[i].0 && rules2[i].1 == rules[i].1 && (!rules[i].0 || rules[i].1
                != FormattingStage::AfterFormatting || rules2[i] == rules[i]) by {
                assert(rules1[i].0 == rules[i].0 && rules1[i].1 == rules[i].1);
                if rules[i].0 && rules[i].1 == FormattingStage::AfterFormatting {
                    assert(rules1[i] == rules[i]);
                    assert(rules2[i] == rules1[i]);
                }
            }
            lemma_stage_alike(
                rules2,
                rules,
                FormattingStage::AfterFormatting,
                toml_document@,
                config,
            );
        }
        let third = self.run_stage(&mut toml_document, FormattingStage::AfterFormatting);
        proof {
            lemma_rules_stay_alike(rules, rules2, self.rules@, FormattingStage::AfterFormatting);
            if all_named(rules) {
                lemma_named_rules_kept(rules, self.rules@);
            }
        }
        match third {
            Ok(()) => {},
            Err(e) => {
                return Err(FormatError::PassFailure { rule: e.0, error: e.1 });
            },
        }
        self.toml_document = toml_document;
        Ok(())
    }

    /// Formats the document by the enabled rules of one stage, in the order
    /// in which they were added. If a rule fails, the document stays as it
    /// was. The three stages in turn are [`CargoToml::format`] where none
    /// fails.
    pub fn format_stage(&mut self, stage: FormattingStage) -> (r: Result<(), FormatError>)
        ensures
            rules_alike(old(self).rules(), final(self).rules()),
            all_named(old(self).rules()) ==> final(self).rules() == old(self).rules(),
            final(self).config() == old(self).config(),
            match after_stage(
                old(self).rules(),
                stage,
                old(self).toml_document@,
                old(self).config(),
            ) {
                Ok(m) => r is Ok && final(self).toml_document@ == m,
                Err(e) => r matches Err(FormatError::PassFailure { rule, error }) && rule == e.0
                    && error == e.1 && final(self).toml_document@ == old(self).toml_document@,
            },
    {
        let ghost rules = self.rules@;
        let mut toml_document = self.toml_document.duplicate();
        let done = self.run_stage(&mut toml_document, stage);
        proof {
            lemma_rules_stay_alike(rules, rules, self.rules@, stage);
            if all_named(rules) {
                lemma_named_rules_kept(rules, self.rules@);
            }
        }
        match done {
            Ok(()) => {
                self.toml_document = toml_document;
                Ok(())
            },
            Err(e) => Err(FormatError::PassFailure { rule: e.0, error: e.1 }),
        }
    }

    /// Applies a rule of the caller's own to the document, at once and
    /// apart from the stages. If the rule fails, the document stays as it
    /// was.
    pub fn apply_rule<T: TomlFormatter>(&mut self, rule: &mut T) -> (r: Result<(), PassError>)
        ensures
            final(self).rules() == old(self).rules(),
            final(self).config() == old(self).config(),
            match old(rule).formatted(old(self).toml_document@, old(self).config()) {
                Ok(m) => r is Ok && final(self).toml_document@ == m,
                Err(e) => r == Err::<(), PassError>(e) && final(self).toml_document@ == old(
                    self,
                ).toml_document@,
            },
    {
        rule.visit_document(&mut self.toml_document, &self.config)
    }

    /// Where the `dependencies` section stands among the top-level entries:
    /// the place of the first entry of that name.
    #[verifier::loop_isolation(false)]
    pub fn dependencies_index(&self) -> (r: Option<usize>)
        ensures
            match r {
                Some(i) => first_dependencies(self.toml_document@.root.entries) == Some(i as int)
                    && i < self.toml_document.root.entries@.len(),
                None => first_dependencies(self.toml_document@.root.entries) is None,
            },
    {
        proof {
            lemma_table_view(self.toml_document.root);
            lemma_first_dependencies(self.toml_document@.root.entries);
        }
        let entries = &self.toml_document.root.entries;
        let ghost models = self.toml_document@.root.entries;
        let mut i: usize = 0;
        while i < entries.len()
            invariant
                i <= entries.len(),
                entries == &self.toml_document.root.entries,
                models == entries_model(entries@),
                forall|j: int| 0 <= j < i ==> !is_dependencies(#[trigger] models[j]),
            decreases entries.len() - i,
        {
            let e = &entries[i];
            proof {
                lemma_item_view(e.item);
                assert(models[i as int] == e@);
            }
            let chars = to_chars(e.key.name.as_str());
            let present = match &e.item {
                TomlItem::Absent => false,
                _ => true,
            };
            if present && is_text(&chars, "dependencies") {
                assert(is_dependencies(models[i as int]));
                return Some(i);
            }
            i += 1;
        }
        None
    }

    /// The `dependencies` section of the document, to read and to change:
    /// the item of the first entry of that name. What the caller makes of
    /// it is what the document holds in that place afterwards.
    pub fn dependencies(&mut self) -> (r: Result<&mut TomlItem, PassError>)
        ensures
            match r {
                Ok(item) => first_dependencies(old(self).toml_document@.root.entries) matches Some(
                    i,
                ) && 0 <= i < old(self).toml_document.root.entries@.len() && *item == old(
                    self,
                ).toml_document.root.entries@[i].item && is_with_item(
                    *old(self),
                    *final(self),
                    i,
                    *final(item),
                ),
                Err(e) => e == PassError::MissingSection && first_dependencies(
                    old(self).toml_document@.root.entries,
                ) is None && *final(self) == *old(self),
            },
    {
        match self.dependencies_index() {
            Some(i) => Ok(&mut self.toml_document.root.entries[i].item),
            None => Err(PassError::MissingSection),
        }
    }
}

/// The text of a manifest after formatting with the rules that a
/// configuration asks for; none for a text that cannot be read, and where
/// a rule fails.
pub open spec fn formatted_text(text: Seq<char>, config: ConfigModel) -> Option<Seq<char>> {
    if is_readable(text) {
        match after_all_stages(rules_for(config), parsed(text)->Some_0, config) {
            Ok(document) => Some(render_document(document)),
            Err(_) => None,
        }
    } else {
        None
    }
}

/// Formats the text of a manifest: reads it, applies the rules that the
/// configuration asks for, stage by stage, and writes the document. A
/// text that cannot be read is a parse failure; the first rule that fails
/// is reported with its error.
pub fn format_text(toml_contents: &str, config: TomlFormatConfig) -> (r: Result<String, FormatError>)
    ensures
        match r {
            Ok(text) => formatted_text(toml_contents@, config@) == Some(text@),
            Err(FormatError::ParseFailure(message)) => !is_readable(toml_contents@)
                && is_parse_failure_of(toml_contents@, message@),
            Err(FormatError::PassFailure { rule, error }) => is_readable(toml_contents@)
                && after_all_stages(
                rules_for(config@),
                parsed(toml_contents@)->Some_0,
                config@,
            ) == Err::<DocumentModel, (Option<FormatRule>, PassError)>((rule, error)),
        },
{
    let mut toml = match CargoToml::from_config(toml_contents.to_string(), config) {
        Ok(toml) => toml,
        Err(e) => {
            return Err(e);
        },
    };
    match toml.format() {
        Ok(()) => Ok(toml.toml_document.to_string()),
        Err(e) => Err(e),
    }
}

/// The place of the first entry that is the `dependencies` section, if
/// there is one.
pub open spec fn first_dependencies(es: Seq<EntryModel>) -> Option<int>
    decreases es.len(),
{
    if es.len() == 0 {
        None
    } else {
        match first_dependencies(es.drop_last()) {
            Some(i) => Some(i),
            None => if is_dependencies(es.last()) {
                Some(es.len() - 1)
            } else {
                None
            },
        }
    }
}

/// The first place is a place of the section, and the first such.
pub proof fn lemma_first_dependencies(es: Seq<EntryModel>)
    ensures
        match first_dependencies(es) {
            Some(i) => 0 <= i < es.len() && is_dependencies(es[i]) && forall|j: int|
                0 <= j < i ==> !is_dependencies(#[trigger] es[j]),
            None => forall|j: int| 0 <= j < es.len() ==> !is_dependencies(#[trigger] es[j]),
        },
    decreases es.len(),
{
    if es.len() > 0 {
        lemma_first_dependencies(es.drop_last());
        assert forall|j: int| 0 <= j < es.len() - 1 implies es[j] == es.drop_last()[j] by {}
    }
}

/// Whether the second manifest is the first with another item in one
/// place of its top level, and nothing else changed.
pub open spec fn is_with_item(before: CargoToml, after: CargoToml, i: int, item: TomlItem) -> bool {
    &&& after.rules == before.rules
    &&& after.config == before.config
    &&& after.toml_document.trailing == before.toml_document.trailing
    &&& after.toml_document.root.decor == before.toml_document.root.decor
    &&& after.toml_document.root.implicit == before.toml_document.root.implicit
    &&& after.toml_document.root.dotted == before.toml_document.root.dotted
    &&& after.toml_document.root.position == before.toml_document.root.position
    &&& after.toml_document.root.entries@ == before.toml_document.root.entries@.update(
        i,
        (Entry { key: before.toml_document.root.entries@[i].key, item }),
    )
}

/// A stage fails at the first rule that fails.
pub proof fn lemma_stage_fails(
    rules: Seq<StagedRule>,
    stage: FormattingStage,
    document: DocumentModel,
    config: ConfigModel,
    i: int,
)
    requires
        0 <= i < rules.len(),
        rules[i].0 && rules[i].1 == stage,
        after_stage(rules.take(i), stage, document, config) is Ok,
        rules[i].2.formatted(
            after_stage(rules.take(i), stage, document, config)->Ok_0,
            config,
        ) is Err,
    ensures
        after_stage(rules, stage, document, config) == Err::<
            DocumentModel,
            (Option<FormatRule>, PassError),
        >(
            (
                rules[i].2.name(),
                rules[i].2.formatted(
                    after_stage(rules.take(i), stage, document, config)->Ok_0,
                    config,
                )->Err_0,
            ),
        ),
    decreases rules.len() - i,
{
    assert(rules.take(i + 1).drop_last() =~= rules.take(i));
    assert(rules.take(i + 1).last() == rules[i]);
    lemma_stage_stays_failed(rules, stage, document, config, i + 1);
}

/// A stage that failed after some of its rules has failed after all.
pub proof fn lemma_stage_stays_failed(
    rules: Seq<StagedRule>,
    stage: FormattingStage,
    document: DocumentModel,
    config: ConfigModel,
    k: int,
)
    requires
        0 <= k <= rules.len(),
        after_stage(rules.take(k), stage, document, config) is Err,
    ensures
        after_stage(rules, stage, document, config) == after_stage(
            rules.take(k),
            stage,
            document,
            config,
        ),
    decreases rules.len() - k,
{
    if k == rules.len() {
        assert(rules.take(k) =~= rules);
    } else {
        assert(rules.take(k + 1).drop_last() =~= rules.take(k));
        lemma_stage_stays_failed(rules, stage, document, config, k + 1);
    }
}

/// A stage goes by its own rules: where two lists agree on the rules of a
/// stage, the stage makes the same of a document with either.
pub proof fn lemma_stage_alike(
    one: Seq<StagedRule>,
    other: Seq<StagedRule>,
    stage: FormattingStage,
    document: DocumentModel,
    config: ConfigModel,
)
    requires
        one.len() == other.len(),
        forall|i: int|
            0 <= i < one.len() ==> (#[trigger] one[i]).0 == other[i].0 && one[i].1 == other[i].1
                && (!other[i].0 || other[i].1 != stage || one[i] == other[i]),
    ensures
        after_stage(one, stage, document, config) == after_stage(other, stage, document, config),
    decreases one.len(),
{
    if one.len() > 0 {
        assert forall|i: int| 0 <= i < one.drop_last().len() implies (#[trigger] one.drop_last()[i]).0
            == other.drop_last()[i].0 && one.drop_last()[i].1 == other.drop_last()[i].1 && (
        !other.drop_last()[i].0 || other.drop_last()[i].1 != stage || one.drop_last()[i]
            == other.drop_last()[i]) by {
            assert(one.drop_last()[i] == one[i]);
            assert(other.drop_last()[i] == other[i]);
        }
        lemma_stage_alike(one.drop_last(), other.drop_last(), stage, document, config);
        assert(one.last() == one[one.len() - 1]);
        assert(other.last() == other[other.len() - 1]);
    }
}

/// Rules that are what they were stay so over one more stage.
pub proof fn lemma_rules_stay_alike(
    before: Seq<StagedRule>,
    middle: Seq<StagedRule>,
    after: Seq<StagedRule>,
    stage: FormattingStage,
)
    requires
        before == middle || rules_alike(before, middle),
        rules_kept(middle, after, stage),
    ensures
        rules_alike(before, after),
{
    assert forall|i: int| 0 <= i < before.len() implies {
        &&& (#[trigger] after[i]).0 == before[i].0
        &&& after[i].1 == before[i].1
        &&& after[i].2.name() == before[i].2.name()
        &&& (before[i].2 is Named || !before[i].0) ==> after[i] == before[i]
    } by {
        assert(middle[i].0 == before[i].0 && middle[i].1 == before[i].1);
        assert(middle[i].2.name() == before[i].2.name());
    }
}

/// Rules of this library are left as they are by every stage.
pub proof fn lemma_named_rules_kept(before: Seq<StagedRule>, after: Seq<StagedRule>)
    requires
        rules_alike(before, after),
        all_named(before),
    ensures
        after == before,
{
    assert(after =~= before);
}

} // verus!
