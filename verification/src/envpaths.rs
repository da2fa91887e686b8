//! The application-private directory layout: where the bundled search
//! engine, its interpreter, the configuration file and the thumbnail cache
//! live, all under one directory inside the system temporary directory.
//! The caller creates the directories; this module only computes the paths.

use vstd::prelude::*;
use vstd::string::StringExecFns;

verus! {

pub struct EnvPaths {
    pub python_binary: String,
    pub config_path: String,
    pub temp_dir: String,
    pub thumbnail_path: String,
    pub search_path: String,
}

impl EnvPaths {
    /// Compute the layout under `base`, the system temporary directory
    /// (without a trailing separator).
    pub fn new(base: &str) -> (r: EnvPaths)
        ensures
            r.temp_dir@ == base@ + "/snaphound"@,
            r.python_binary@ == r.temp_dir@ + "/venv/bin/python"@,
            r.config_path@ == r.temp_dir@ + "/config.json"@,
            r.search_path@ == r.temp_dir@ + "/search.py"@,
            r.thumbnail_path@ == r.temp_dir@ + "/thumbnail"@,
    {
        let temp_dir = base.to_owned().concat("/snaphound");
        let python_binary = temp_dir.clone().concat("/venv/bin/python");
        let config_path = temp_dir.clone().concat("/config.json");
        let search_path = temp_dir.clone().concat("/search.py");
        let thumbnail_path = temp_dir.clone().concat("/thumbnail");
        EnvPaths { python_binary, config_path, temp_dir, thumbnail_path, search_path }
    }
}

} // verus!
