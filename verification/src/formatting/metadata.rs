use vstd::prelude::*;

verus! {

/// The name that identifies a formatting rule.
#[derive(Debug, Clone, Copy, PartialEq, Eq, Hash)]
pub struct RuleId(pub &'static str);

/// The pass a formatting rule runs in.
#[derive(Debug, Clone, Copy, PartialEq, Eq, Hash, Structural)]
pub enum RuleCategory {
    Lexical,
    Normalization,
    Developer,
    Formatting,
    Cleanup,
    Validation,
}

#[derive(Debug, Clone, Copy)]
pub struct RuleCapabilities {
    pub streaming_safe: bool,
    pub token_based: bool,
    pub regex_based: bool,
    pub locale_aware: bool,
    pub developer_only: bool,
    pub markdown_only: bool,
    pub incremental_safe: bool,
}

impl Default for RuleCapabilities {
    fn default() -> (c: Self)
        ensures
            c.streaming_safe,
            !c.token_based,
            c.regex_based,
            !c.locale_aware,
            !c.developer_only,
            !c.markdown_only,
            c.incremental_safe,
    {
        Self {
            streaming_safe: true,
            token_based: false,
            regex_based: true,
            locale_aware: false,
            developer_only: false,
            markdown_only: false,
            incremental_safe: true,
        }
    }
}

/// What a formatting rule declares about itself.
#[derive(Debug, Clone, Copy)]
pub struct RuleMetadata {
    pub id: RuleId,
    pub name: &'static str,
    pub version: &'static str,
    pub category: RuleCategory,
    pub priority: u16,
    pub capabilities: RuleCapabilities,
    pub depends_on: &'static [RuleId],
}

/// The capabilities of a regex-based rule that may run on partial text.
pub open spec fn regex_capabilities(developer_only: bool, markdown_only: bool, locale_aware: bool) -> RuleCapabilities {
    RuleCapabilities {
        streaming_safe: true,
        token_based: false,
        regex_based: true,
        locale_aware,
        developer_only,
        markdown_only,
        incremental_safe: true,
    }
}

/// What a built-in rule declares: its name as id, version 1.0.0, no dependencies.
pub open spec fn builtin_metadata(name: &'static str, category: RuleCategory, priority: u16, capabilities: RuleCapabilities) -> RuleMetadata {
    RuleMetadata { id: RuleId(name), name, version: "1.0.0", category, priority, capabilities, depends_on: &[] }
}

/// Exec form of `builtin_metadata`.
pub fn builtin(name: &'static str, category: RuleCategory, priority: u16, capabilities: RuleCapabilities) -> (m: RuleMetadata)
    ensures
        m == builtin_metadata(name, category, priority, capabilities),
{
    RuleMetadata { id: RuleId(name), name, version: "1.0.0", category, priority, capabilities, depends_on: &[] }
}

/// Exec form of `regex_capabilities`.
pub fn streaming_regex_capabilities(developer_only: bool, markdown_only: bool, locale_aware: bool) -> (c: RuleCapabilities)
    ensures
        c == regex_capabilities(developer_only, markdown_only, locale_aware),
{
    RuleCapabilities {
        streaming_safe: true,
        token_based: false,
        regex_based: true,
        locale_aware,
        developer_only,
        markdown_only,
        incremental_safe: true,
    }
}

} // verus!
