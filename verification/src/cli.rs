//! The command line, once its arguments are parsed.

use vstd::prelude::*;

use crate::normalize::NormalizeConfig;
use crate::text::same_text;

verus! {

/// The arguments of `epub-mgr normalize`.
#[derive(Debug, Clone, PartialEq, Eq)]
pub struct NormalizeArgs {
    pub source_library: String,
    pub output_library: String,
    pub template: String,
    pub dry_run: bool,
    pub report: Option<String>,
}

/// Whether the program was started as a command line tool, by its first argument.
pub fn is_cli_invocation(first_argument: Option<&str>) -> (yes: bool)
    ensures
        yes == match first_argument {
            Some(argument) => argument@ == "normalize"@,
            None => false,
        },
{
    match first_argument {
        Some(argument) => same_text(argument, "normalize"),
        None => false,
    }
}

impl NormalizeArgs {
    /// The run that the arguments ask for, and where its report goes.
    pub fn into_config(self) -> (out: (NormalizeConfig, Option<String>))
        ensures
            out.0 == (NormalizeConfig {
                source_library: self.source_library,
                output_library: self.output_library,
                output_path_template: self.template,
                dry_run: self.dry_run,
                enrichment: None,
            }),
            out.1 == self.report,
    {
        let config = NormalizeConfig {
            source_library: self.source_library,
            output_library: self.output_library,
            output_path_template: self.template,
            dry_run: self.dry_run,
            enrichment: None,
        };
        (config, self.report)
    }
}

} // verus!
