//! The configuration collaborator's decision rule: which output file a run
//! uses, and whether the choice must be saved back.
//!
//! Loading and saving the configuration file is plain input and output and
//! stays with the caller; the rule itself is verified here.

use vstd::prelude::*;

verus! {

/// The persisted configuration.
#[derive(Clone, Debug)]
pub struct ConfigData {
    /// The output file path to use when no explicit path is given.
    pub output_file: Option<String>,
}

/// Chooses the output file for a run.  An explicit path wins, is written
/// into the configuration, and must be saved; otherwise the configured path
/// is used, or the fixed default where none is configured, and nothing need
/// be saved.  Returns the configuration to keep, the chosen path, and
/// whether to save.
pub fn manage_config(arg_output: Option<String>, config: ConfigData) -> (r: (
    ConfigData,
    String,
    bool,
))
    ensures
        match arg_output {
            Some(f) => (match r.0.output_file {
                Some(g) => g@ == f@,
                None => false,
            }) && r.1@ == f@ && r.2,
            None => !r.2 && match config.output_file {
                Some(g) => (match r.0.output_file {
                    Some(h) => h@ == g@,
                    None => false,
                }) && r.1@ == g@,
                None => r.0.output_file is None && r.1@ == "default_output.txt"@,
            },
        },
{
    match arg_output {
        Some(f) => {
            let chosen = f.clone();
            (ConfigData { output_file: Some(f) }, chosen, true)
        },
        None => match config.output_file {
            Some(g) => {
                let chosen = g.clone();
                (ConfigData { output_file: Some(g) }, chosen, false)
            },
            None => {
                let fallback: &str = "default_output.txt";
                (ConfigData { output_file: None }, fallback.to_owned(), false)
            },
        },
    }
}

} // verus!
