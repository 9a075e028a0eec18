use vstd::prelude::*;

verus! {

/// Output format for command results
#[derive(Clone, Copy, Debug, PartialEq, Eq, Structural)]
pub enum OutputFormat {
    /// CLI format - human-readable terminal output with borders
    Cli,
    /// JSON format - structured data output
    Json,
    /// Markdown format - documentation-friendly output
    Md,
    /// Text format - token-efficient plain text output
    Text,
    /// Compact format - minimal output for quick viewing
    Compact,
}

impl Default for OutputFormat {
    fn default() -> (r: Self)
        ensures
            r == OutputFormat::Cli,
    {
        OutputFormat::Cli
    }
}

impl OutputFormat {
    /// Check if this is JSON format
    pub fn is_json(&self) -> (r: bool)
        ensures
            r == (*self is Json),
    {
        matches!(self, OutputFormat::Json)
    }

    /// Check if this is Markdown format
    pub fn is_md(&self) -> (r: bool)
        ensures
            r == (*self is Md),
    {
        matches!(self, OutputFormat::Md)
    }

    /// Check if this is Text format
    pub fn is_text(&self) -> (r: bool)
        ensures
            r == (*self is Text),
    {
        matches!(self, OutputFormat::Text)
    }

    /// Check if this is CLI format
    pub fn is_cli(&self) -> (r: bool)
        ensures
            r == (*self is Cli),
    {
        matches!(self, OutputFormat::Cli)
    }

    /// Check if this is Compact format
    pub fn is_compact(&self) -> (r: bool)
        ensures
            r == (*self is Compact),
    {
        matches!(self, OutputFormat::Compact)
    }
}

} // verus!
