//! What a plugin that traces programs can report.

use vstd::prelude::*;

verus! {

/// Errors returned by plugin calls. Errors from below are kept as text.
#[derive(Debug)]
pub enum BpfTracerPluginError {
    /// Error opening the configuration file; for example, when the file is not found or when the
    /// validator process has no permission to read it.
    ConfigFileOpenError(String),
    /// Error in reading the content of the config file or the content is not in the expected
    /// format.
    ConfigFileReadError { msg: String },
    /// Any custom error defined by the plugin.
    Custom(String),
}

impl BpfTracerPluginError {
    /// The error as it is shown.
    pub fn message(&self) -> (r: String)
        ensures
            r@ == (match *self {
                BpfTracerPluginError::ConfigFileOpenError(detail) =>
                "Error opening config file. Error detail: ("@ + detail@ + ")."@,
                BpfTracerPluginError::ConfigFileReadError { msg } =>
                "Error reading config file. Error message: ("@ + msg@ + ")"@,
                BpfTracerPluginError::Custom(detail) =>
                "Plugin-defined custom error. Error message: ("@ + detail@ + ")"@,
            }),
    {
        match self {
            BpfTracerPluginError::ConfigFileOpenError(detail) => {
                let mut text: String = "Error opening config file. Error detail: (".to_string();
                text.append(detail.as_str());
                text.append(").");
                text
            },
            BpfTracerPluginError::ConfigFileReadError { msg } => {
                let mut text: String = "Error reading config file. Error message: (".to_string();
                text.append(msg.as_str());
                text.append(")");
                text
            },
            BpfTracerPluginError::Custom(detail) => {
                let mut text: String =
                    "Plugin-defined custom error. Error message: (".to_string();
                text.append(detail.as_str());
                text.append(")");
                text
            },
        }
    }
}

} // verus!
