//! What can be wrong with the settings.
use vstd::prelude::*;

verus! {

/// Why the settings were refused. `name` is the environment variable.
#[derive(Debug)]
#[allow(inconsistent_fields)]
pub enum ConfigError {
    MissingEnvironmentVariable { name: &'static str },
    EmptyEnvironmentVariable { name: &'static str },
    InvalidEnvironmentVariable { name: &'static str, value: String },
    InvalidUrl { name: &'static str, source: url::ParseError },
    InvalidRegex { name: &'static str, source: regex::Error },
}

/// A refusal by the texts it holds.
#[allow(inconsistent_fields)]
pub enum ConfigErrorModel {
    MissingEnvironmentVariable { name: Seq<char> },
    EmptyEnvironmentVariable { name: Seq<char> },
    InvalidEnvironmentVariable { name: Seq<char>, value: Seq<char> },
    InvalidUrl { name: Seq<char>, source: url::ParseError },
    InvalidRegex { name: Seq<char>, source: regex::Error },
}

impl View for ConfigError {
    type V = ConfigErrorModel;

    open spec fn view(&self) -> ConfigErrorModel {
        match self {
            ConfigError::MissingEnvironmentVariable { name } => {
                ConfigErrorModel::MissingEnvironmentVariable { name: name@ }
            },
            ConfigError::EmptyEnvironmentVariable { name } => {
                ConfigErrorModel::EmptyEnvironmentVariable { name: name@ }
            },
            ConfigError::InvalidEnvironmentVariable { name, value } => {
                ConfigErrorModel::InvalidEnvironmentVariable { name: name@, value: value@ }
            },
            ConfigError::InvalidUrl { name, source } => {
                ConfigErrorModel::InvalidUrl { name: name@, source: *source }
            },
            ConfigError::InvalidRegex { name, source } => {
                ConfigErrorModel::InvalidRegex { name: name@, source: *source }
            },
        }
    }
}

} // verus!
