//! The launcher's own configuration and data directories.
use vstd::prelude::*;
use crate::paths::{join, join_path};
use crate::text::concat;

verus! {

/// The name of the launcher's directory under the base directories.
pub const DIR_NAME: &'static str = "brunch";

/// The name of the launch history file in the data directory.
pub const HISTORY_FILE: &'static str = "history.json";

/// Why a directory of the launcher could not be made: the system's error
/// text.
pub enum DirectoriesError {
    /// The configuration directory could not be created.
    Config(String),
    /// The data directory could not be created.
    Data(String),
}

impl DirectoriesError {
    /// The text of the error, as it is reported.
    pub fn message(&self) -> (r: String)
        ensures
            r@ == match self {
                DirectoriesError::Config(e) => "could not create config directory: "@ + e@,
                DirectoriesError::Data(e) => "could not create data directory: "@ + e@,
            },
    {
        match self {
            DirectoriesError::Config(e) => concat("could not create config directory: ", e.as_str()),
            DirectoriesError::Data(e) => concat("could not create data directory: ", e.as_str()),
        }
    }
}

/// The configuration and data directories of the launcher.
pub struct AppDirectories {
    config: String,
    data: String,
}

impl AppDirectories {
    /// The configuration directory.
    pub closed spec fn spec_config(&self) -> Seq<char> {
        self.config@
    }

    /// The data directory.
    pub closed spec fn spec_data(&self) -> Seq<char> {
        self.data@
    }

    /// The directories at the given paths (once they exist).
    pub fn new(config: String, data: String) -> (r: Self)
        ensures
            r.spec_config() == config@,
            r.spec_data() == data@,
    {
        AppDirectories { config, data }
    }

    /// The configuration directory.
    pub fn config_dir(&self) -> (r: &str)
        ensures
            r@ == self.spec_config(),
    {
        self.config.as_str()
    }

    /// The data directory.
    pub fn data_dir(&self) -> (r: &str)
        ensures
            r@ == self.spec_data(),
    {
        self.data.as_str()
    }

    /// Where the launch history is kept: `history.json` in the data
    /// directory.
    pub fn history_path(&self) -> (r: String)
        ensures
            r@ == join_path(self.spec_data(), HISTORY_FILE@),
    {
        join(self.data.as_str(), HISTORY_FILE)
    }
}

} // verus!
