use vstd::prelude::*;

verus! {

/// Where the application keeps its files: the database and the settings
/// file, as plain path strings.
pub struct AppPaths {
    pub db_path: String,
    pub config_path: String,
}

impl AppPaths {
    /// Lays the application's files out under the platform's data and
    /// configuration directories, whose locations the caller supplies.
    pub fn under(data_home: &str, config_home: &str) -> (r: AppPaths)
        ensures
            r.db_path@ == data_home@ + "/memo-tori/memo-tori.db"@,
            r.config_path@ == config_home@ + "/memo-tori/config.toml"@,
    {
        let mut db = data_home.to_owned();
        db.append("/memo-tori/memo-tori.db");
        let mut cfg = config_home.to_owned();
        cfg.append("/memo-tori/config.toml");
        AppPaths { db_path: db, config_path: cfg }
    }

    /// The directory that must exist before the database file is created.
    pub fn data_dir_of(data_home: &str) -> (r: String)
        ensures
            r@ == data_home@ + "/memo-tori"@,
    {
        let mut d = data_home.to_owned();
        d.append("/memo-tori");
        d
    }

    /// The directory that must exist before the settings file is created.
    pub fn config_dir_of(config_home: &str) -> (r: String)
        ensures
            r@ == config_home@ + "/memo-tori"@,
    {
        let mut d = config_home.to_owned();
        d.append("/memo-tori");
        d
    }
}

} // verus!
