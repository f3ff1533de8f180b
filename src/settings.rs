//! Run settings: generation defaults, model saving and logging.

use vstd::prelude::*;

verus! {

#[derive(Debug, Clone, PartialEq, Eq)]
pub struct ModelSettings {
    pub auto_save: bool,
    pub compression: bool,
    pub format: String,
}

#[derive(Debug, Clone, PartialEq, Eq)]
pub struct LoggingSettings {
    pub level: String,
    pub file: Option<String>,
}

#[derive(Debug, Clone, PartialEq, Eq)]
pub struct DefaultSettings {
    pub order: usize,
    pub max_words: usize,
    pub corpus: String,
}

#[derive(Debug, Clone, PartialEq, Eq)]
pub struct Settings {
    pub defaults: DefaultSettings,
    pub model: ModelSettings,
    pub logging: LoggingSettings,
}

impl Default for Settings {
    /// Order 2, 100 words, the corpus `corpora/default.txt`, models saved
    /// automatically as uncompressed JSON, and logging at `info` level to
    /// the default log file.
    fn default() -> (r: Self)
        ensures
            r.defaults.order == 2,
            r.defaults.max_words == 100,
            r.defaults.corpus@ == "corpora/default.txt"@,
            r.model.auto_save,
            !r.model.compression,
            r.model.format@ == "json"@,
            r.logging.level@ == "info"@,
            r.logging.file is None,
    {
        Settings {
            defaults: DefaultSettings {
                order: 2,
                max_words: 100,
                corpus: "corpora/default.txt".to_string(),
            },
            model: ModelSettings { auto_save: true, compression: false, format: "json".to_string() },
            logging: LoggingSettings { level: "info".to_string(), file: None },
        }
    }
}

} // verus!
